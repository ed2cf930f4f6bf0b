//! Projection of ray hits into wall slices, texture sampling, and the frame
//! compositor that draws one slice per screen column.
use crate::caster::{cast_ray, ray_hit, step_length_ok, MAX_STEP};
use crate::framebuffer::{lemma_pixel_coords, lemma_pixel_index, paint, Framebuffer};
use crate::minimap::{draw_minimap, minimap_blocks};
use crate::maze::maze_fits;
use crate::player::Player;
use crate::texture::{texture_column, texture_x, Texture};
use vstd::prelude::*;

verus! {

/// Fixed-point scale of cosines: `COS_ONE` stands for 1.
pub const COS_ONE: i64 = 65536;

/// The ray of one screen column.
#[derive(Clone, Copy)]
pub struct Ray {
    /// One march step along the ray, in subunits: `STEP` world units.
    pub step_x: i64,
    pub step_y: i64,
    /// The cosine of the angle between the ray and the heading, scaled by
    /// `COS_ONE`.
    pub cos_offset: i64,
}

impl Ray {
    pub open spec fn wf(&self) -> bool {
        &&& step_length_ok(self.step_x as int, self.step_y as int)
        &&& -MAX_STEP <= self.step_x <= MAX_STEP
        &&& -MAX_STEP <= self.step_y <= MAX_STEP
        &&& -COS_ONE <= self.cos_offset <= COS_ONE
    }
}

/// The height in pixels of the wall slice for a hit `distance` world units
/// away, seen at an angle whose cosine (scaled by `COS_ONE`) is `cos_offset`
/// from the heading: the screen height times the cell size over the
/// fisheye-corrected distance. Where that distance is not positive the wall
/// counts as infinitely far, and the slice is empty.
pub open spec fn slice_height(distance: int, cos_offset: int, screen_height: int, block_size: int) -> int {
    let corrected = distance * cos_offset;
    if corrected <= 0 {
        0
    } else {
        screen_height * block_size * COS_ONE / corrected
    }
}

/// The screen row of the top of a slice `height` pixels tall, centred.
pub open spec fn wall_top(screen_height: int, height: int) -> int {
    screen_height / 2 - height / 2
}

pub open spec fn wall_bottom(screen_height: int, height: int) -> int {
    screen_height / 2 + height / 2
}

/// The slice lies wholly above or below the screen, and is not drawn.
pub open spec fn slice_hidden(screen_height: int, height: int) -> bool {
    wall_top(screen_height, height) >= screen_height || wall_bottom(screen_height, height) <= 0
}

/// Screen row `py` shows part of the slice.
pub open spec fn slice_covers(screen_height: int, height: int, py: int) -> bool {
    &&& !slice_hidden(screen_height, height)
    &&& wall_top(screen_height, height) <= py < wall_top(screen_height, height) + height
    &&& 0 <= py < screen_height
}

/// The colour of screen row `py` of a slice `height` tall that shows texture
/// column `tx`: the texel row in proportion to the row within the slice.
pub open spec fn slice_color(texture: Texture, tx: int, screen_height: int, height: int, py: int) -> u32 {
    texture.texel_spec(tx, (py - wall_top(screen_height, height)) * texture.height / height)
}

/// `buf` with the slice drawn into screen column `column`.
pub open spec fn with_slice(
    buf: Seq<u32>,
    width: int,
    screen_height: int,
    column: int,
    height: int,
    texture: Texture,
    tx: int,
) -> Seq<u32> {
    Seq::new(
        buf.len(),
        |k: int|
            if k % width == column && slice_covers(screen_height, height, k / width) {
                slice_color(texture, tx, screen_height, height, k / width)
            } else {
                buf[k]
            },
    )
}

pub fn project(distance: u64, cos_offset: i64, screen_height: usize, block_size: usize) -> (r: u64)
    requires
        -COS_ONE <= cos_offset <= COS_ONE,
        screen_height * block_size * COS_ONE <= u64::MAX,
    ensures
        r == slice_height(distance as int, cos_offset as int, screen_height as int, block_size as int),
{
    assert(-0x1_0000_0000_0000_0000_0000 <= distance * cos_offset <= 0x1_0000_0000_0000_0000_0000)
        by (nonlinear_arith)
        requires
            0 <= distance <= u64::MAX,
            -COS_ONE <= cos_offset <= COS_ONE,
            COS_ONE == 65536,
    ;
    let corrected: i128 = (distance as i128) * (cos_offset as i128);
    if corrected <= 0 {
        return 0;
    }
    let numerator: u128 = (screen_height as u128) * (block_size as u128) * (COS_ONE as u128);
    let r = numerator / (corrected as u128);
    proof {
        vstd::arithmetic::div_mod::lemma_div_is_ordered_by_denominator(
            numerator as int,
            1,
            corrected as int,
        );
    }
    r as u64
}

/// The height and texture column of the slice for screen column `i`.
pub open spec fn column_slice(
    maze: Seq<Vec<char>>,
    block_size: int,
    player: Player,
    ray: Ray,
    screen_height: int,
    texture: Texture,
) -> (int, int) {
    let hit = ray_hit(maze, block_size, player.x as int, player.y as int, ray.step_x as int, ray.step_y as int);
    (
        slice_height(hit.distance as int, ray.cos_offset as int, screen_height, block_size),
        texture_column(hit.x as int, block_size, texture.width as int),
    )
}

/// The slice of at least one column lies partly on the screen, so drawing it
/// chooses white as the current colour.
pub open spec fn some_slice_shown(
    screen_height: int,
    maze: Seq<Vec<char>>,
    block_size: int,
    player: Player,
    texture: Texture,
    rays: Seq<Ray>,
) -> bool {
    exists|i: int|
        0 <= i < rays.len() && !slice_hidden(
            screen_height,
            #[trigger] column_slice(maze, block_size, player, rays[i], screen_height, texture).0,
        )
}

/// The frame that `render` draws over `buf`: in each screen column that has a
/// ray, the rows that its wall slice covers show the slice's texels; every
/// other pixel keeps its colour.
pub open spec fn frame(
    buf: Seq<u32>,
    width: int,
    screen_height: int,
    maze: Seq<Vec<char>>,
    block_size: int,
    player: Player,
    texture: Texture,
    rays: Seq<Ray>,
) -> Seq<u32> {
    Seq::new(
        buf.len(),
        |k: int|
            {
                let col = k % width;
                let py = k / width;
                if col < rays.len() {
                    let (height, tx) = column_slice(maze, block_size, player, rays[col], screen_height, texture);
                    if slice_covers(screen_height, height, py) {
                        slice_color(texture, tx, screen_height, height, py)
                    } else {
                        buf[k]
                    }
                } else {
                    buf[k]
                }
            },
    )
}

/// Draws the slice of a wall `height` pixels tall into screen column `x`,
/// centred vertically, showing texture column `texture_x`. A slice wholly
/// off the screen leaves every pixel as it was.
pub fn draw_wall_slice(
    framebuffer: &mut Framebuffer,
    x: usize,
    height: u64,
    texture: &Texture,
    texture_x: usize,
)
    requires
        old(framebuffer).wf(),
        texture.wf(),
        texture_x < texture.width,
    ensures
        final(framebuffer).wf(),
        final(framebuffer).width == old(framebuffer).width,
        final(framebuffer).height == old(framebuffer).height,
        final(framebuffer).background_color == old(framebuffer).background_color,
        final(framebuffer).current_color == if slice_hidden(
            old(framebuffer).height as int,
            height as int,
        ) {
            old(framebuffer).current_color
        } else {
            0xFFFFFF
        },
        final(framebuffer).buffer@ == with_slice(
            old(framebuffer).buffer@,
            old(framebuffer).width as int,
            old(framebuffer).height as int,
            x as int,
            height as int,
            *texture,
            texture_x as int,
        ),
        slice_hidden(old(framebuffer).height as int, height as int) ==> final(framebuffer).buffer@
            == old(framebuffer).buffer@,
{
    let ghost old_buf = framebuffer.buffer@;
    let ghost w = framebuffer.width as int;
    let ghost sh = framebuffer.height as int;
    let ghost target = with_slice(old_buf, w, sh, x as int, height as int, *texture, texture_x as int);
    let n = framebuffer.buffer.len();
    let screen_height = framebuffer.height as i128;
    let h = height as i128;
    let top = screen_height / 2 - h / 2;
    let bottom = screen_height / 2 + h / 2;
    if top >= screen_height || bottom <= 0 {
        proof {
            assert forall|k: int| 0 <= k < n implies target[k] == old_buf[k] by {
                if w > 0 {
                    lemma_pixel_coords(k, w);
                }
            }
        }
        assert(framebuffer.buffer@ =~= target);
        return;
    }
    framebuffer.set_current_color(0xFFFFFF);
    if x >= framebuffer.width {
        proof {
            assert forall|k: int| 0 <= k < n implies target[k] == old_buf[k] by {
                if w > 0 {
                    lemma_pixel_coords(k, w);
                }
            }
        }
        assert(framebuffer.buffer@ =~= target);
        return;
    }
    let lo: i128 = if top < 0 { 0 } else { top };
    let hi: i128 = if top + h < screen_height { top + h } else { screen_height };
    let mut py: i128 = lo;
    while py < hi
        invariant
            framebuffer.wf(),
            framebuffer.width == old(framebuffer).width,
            framebuffer.height == old(framebuffer).height,
            framebuffer.background_color == old(framebuffer).background_color,
            framebuffer.current_color == 0xFFFFFF,
            texture.wf(),
            texture_x < texture.width,
            w == framebuffer.width,
            sh == framebuffer.height,
            screen_height == sh,
            h == height,
            x < w,
            n == framebuffer.buffer@.len(),
            old_buf == old(framebuffer).buffer@,
            n == old_buf.len(),
            top == wall_top(sh, h as int),
            !slice_hidden(sh, h as int),
            lo == if top < 0 { 0 } else { top },
            hi == if top + h < sh { top + h } else { sh },
            lo <= py <= hi || hi <= lo == py,
            target == with_slice(old_buf, w, sh, x as int, height as int, *texture, texture_x as int),
            forall|k: int|
                0 <= k < n ==> framebuffer.buffer@[k] == if k % w == x && k / w < py {
                    target[k]
                } else {
                    old_buf[k]
                },
        decreases hi - py,
    {
        let row = py - top;
        assert(row * texture.height < h * texture.height) by (nonlinear_arith)
            requires
                0 <= row < h,
                texture.height >= 1,
        ;
        assert(0 <= row * texture.height) by (nonlinear_arith)
            requires
                0 <= row,
                texture.height >= 1,
        ;
        assert(texture.height <= 0xFFFF_FFFF_FFFF_FFFFu64);
        assert(row * texture.height <= 0xFFFF_FFFF_FFFF_FFFFu64 * 0xFFFF_FFFF_FFFF_FFFFu128)
            by (nonlinear_arith)
            requires
                0 <= row <= 0xFFFF_FFFF_FFFF_FFFFu64,
                texture.height <= 0xFFFF_FFFF_FFFF_FFFFu64,
        ;
        let scaled: u128 = (row as u128) * (texture.height as u128);
        let ty = scaled / (h as u128);
        proof {
            vstd::arithmetic::div_mod::lemma_multiply_divide_lt(
                scaled as int,
                h as int,
                texture.height as int,
            );
        }
        let color = texture.texel(texture_x, ty as usize);
        let ghost yy = py as int;
        proof {
            lemma_pixel_index(x as int, yy, w, sh);
        }
        framebuffer.point(x, py as usize, color);
        proof {
            let idx = yy * w + x;
            assert forall|j: int| 0 <= j < n implies framebuffer.buffer@[j] == if j % w == x && j
                / w < yy + 1 {
                target[j]
            } else {
                old_buf[j]
            } by {
                lemma_pixel_coords(j, w);
                if j % w == x && j / w == yy {
                    assert(j == idx) by (nonlinear_arith)
                        requires
                            j == w * (j / w) + j % w,
                            j / w == yy,
                            j % w == x,
                            idx == yy * w + x,
                    ;
                }
            }
        }
        py = py + 1;
    }
    proof {
        assert forall|j: int| 0 <= j < n implies framebuffer.buffer@[j] == target[j] by {
            lemma_pixel_coords(j, w);
            assert(j / w < sh) by (nonlinear_arith)
                requires
                    0 <= j < w * sh,
                    j == w * (j / w) + j % w,
                    0 <= j % w < w,
            ;
        }
    }
    assert(framebuffer.buffer@ =~= target);
}

/// Draws the view from `player`: for each screen column, the ray that `rays`
/// gives it is cast through the maze, its hit projected into a wall slice,
/// and the slice drawn with the texture.
pub fn render(
    framebuffer: &mut Framebuffer,
    player: &Player,
    texture: &Texture,
    maze: &Vec<Vec<char>>,
    block_size: usize,
    rays: &Vec<Ray>,
)
    requires
        old(framebuffer).wf(),
        texture.wf(),
        maze_fits(maze@, block_size as int),
        forall|i: int| 0 <= i < rays@.len() ==> (#[trigger] rays@[i]).wf(),
        old(framebuffer).height * block_size * COS_ONE <= u64::MAX,
    ensures
        final(framebuffer).wf(),
        final(framebuffer).width == old(framebuffer).width,
        final(framebuffer).height == old(framebuffer).height,
        final(framebuffer).background_color == old(framebuffer).background_color,
        final(framebuffer).current_color == if some_slice_shown(
            old(framebuffer).height as int,
            maze@,
            block_size as int,
            *player,
            *texture,
            rays@,
        ) {
            0xFFFFFF
        } else {
            old(framebuffer).current_color
        },
        final(framebuffer).buffer@ == frame(
            old(framebuffer).buffer@,
            old(framebuffer).width as int,
            old(framebuffer).height as int,
            maze@,
            block_size as int,
            *player,
            *texture,
            rays@,
        ),
{
    let ghost old_buf = framebuffer.buffer@;
    let ghost w = framebuffer.width as int;
    let ghost sh = framebuffer.height as int;
    let ghost bs = block_size as int;
    let mut i: usize = 0;
    proof {
        assert(framebuffer.buffer@ =~= frame(old_buf, w, sh, maze@, bs, *player, *texture, rays@.take(0)));
    }
    while i < rays.len()
        invariant
            framebuffer.wf(),
            framebuffer.width == old(framebuffer).width,
            framebuffer.height == old(framebuffer).height,
            framebuffer.background_color == old(framebuffer).background_color,
            framebuffer.current_color == if some_slice_shown(
                sh,
                maze@,
                bs,
                *player,
                *texture,
                rays@.take(i as int),
            ) {
                0xFFFFFF
            } else {
                old(framebuffer).current_color
            },
            texture.wf(),
            maze_fits(maze@, bs),
            bs == block_size,
            forall|j: int| 0 <= j < rays@.len() ==> (#[trigger] rays@[j]).wf(),
            framebuffer.height * block_size * COS_ONE <= u64::MAX,
            w == framebuffer.width,
            sh == framebuffer.height,
            old_buf == old(framebuffer).buffer@,
            i <= rays@.len(),
            framebuffer.buffer@ == frame(old_buf, w, sh, maze@, bs, *player, *texture, rays@.take(i as int)),
        decreases rays@.len() - i,
    {
        let ray = &rays[i];
        let hit = cast_ray(maze, player.x, player.y, ray.step_x, ray.step_y, block_size);
        let height = project(hit.distance, ray.cos_offset, framebuffer.height, block_size);
        let tx = texture_x(hit.x, block_size, texture.width);
        draw_wall_slice(framebuffer, i, height, texture, tx);
        proof {
            let next = frame(old_buf, w, sh, maze@, bs, *player, *texture, rays@.take(i + 1));
            assert forall|k: int| 0 <= k < next.len() implies framebuffer.buffer@[k] == next[k] by {
                if w > 0 {
                    lemma_pixel_coords(k, w);
                }
                if k % w < i {
                    assert(rays@.take(i + 1)[k % w] == rays@.take(i as int)[k % w]);
                }
            }
            assert(framebuffer.buffer@ =~= next);
            let pre = rays@.take(i as int);
            let post = rays@.take(i + 1);
            let shown_i = !slice_hidden(
                sh,
                column_slice(maze@, bs, *player, rays@[i as int], sh, *texture).0,
            );
            assert(post[i as int] == rays@[i as int]);
            if some_slice_shown(sh, maze@, bs, *player, *texture, pre) {
                let c = choose|c: int|
                    0 <= c < pre.len() && !slice_hidden(
                        sh,
                        #[trigger] column_slice(maze@, bs, *player, pre[c], sh, *texture).0,
                    );
                assert(post[c] == pre[c]);
                assert(some_slice_shown(sh, maze@, bs, *player, *texture, post));
            } else if shown_i {
                assert(some_slice_shown(sh, maze@, bs, *player, *texture, post));
            } else {
                assert forall|c: int| 0 <= c < post.len() implies slice_hidden(
                    sh,
                    #[trigger] column_slice(maze@, bs, *player, post[c], sh, *texture).0,
                ) by {
                    if c < i {
                        assert(post[c] == pre[c]);
                    }
                }
            }
        }
        i += 1;
    }
    assert(rays@.take(rays@.len() as int) =~= rays@);
}

/// Draws the whole frame: the view from `player`, then the map of the maze
/// over it, at `1 / shrink` of the world's size.
pub fn render_frame(
    framebuffer: &mut Framebuffer,
    player: &Player,
    texture: &Texture,
    maze: &Vec<Vec<char>>,
    block_size: usize,
    rays: &Vec<Ray>,
    shrink: usize,
)
    requires
        old(framebuffer).wf(),
        texture.wf(),
        maze_fits(maze@, block_size as int),
        forall|i: int| 0 <= i < rays@.len() ==> (#[trigger] rays@[i]).wf(),
        old(framebuffer).height * block_size * COS_ONE <= u64::MAX,
        shrink > 0,
    ensures
        final(framebuffer).wf(),
        final(framebuffer).width == old(framebuffer).width,
        final(framebuffer).height == old(framebuffer).height,
        final(framebuffer).background_color == old(framebuffer).background_color,
        final(framebuffer).current_color == if some_slice_shown(
            old(framebuffer).height as int,
            maze@,
            block_size as int,
            *player,
            *texture,
            rays@,
        ) {
            0xFFFFFF
        } else {
            old(framebuffer).current_color
        },
        final(framebuffer).buffer@ == paint(
            frame(
                old(framebuffer).buffer@,
                old(framebuffer).width as int,
                old(framebuffer).height as int,
                maze@,
                block_size as int,
                *player,
                *texture,
                rays@,
            ),
            old(framebuffer).width as int,
            minimap_blocks(maze@, block_size as int, shrink as int, *player),
        ),
{
    render(framebuffer, player, texture, maze, block_size, rays);
    draw_minimap(framebuffer, player, maze, block_size, shrink);
}

/// The angle of the ray of screen column `i` of `screen_width`: the rays
/// spread evenly over the field of view, from its left edge at
/// `a - fov / 2`.
pub open spec fn ray_angle_spec(a: int, fov: int, screen_width: int, i: int) -> int {
    a - fov / 2 + fov * i / screen_width
}

pub fn ray_angle(player: &Player, screen_width: usize, i: usize) -> (r: i64)
    requires
        i < screen_width,
        -0x1000_0000_0000_0000 <= player.a <= 0x1000_0000_0000_0000,
        0 <= player.fov <= 0x1000_0000_0000_0000,
    ensures
        r == ray_angle_spec(player.a as int, player.fov as int, screen_width as int, i as int),
{
    assert(player.fov * i <= 0x1000_0000_0000_0000 * 0xFFFF_FFFF_FFFF_FFFFu128) by (nonlinear_arith)
        requires
            0 <= player.fov <= 0x1000_0000_0000_0000,
            0 <= i <= 0xFFFF_FFFF_FFFF_FFFFu64,
    ;
    let spread = (player.fov as i128) * (i as i128);
    assert(0 <= spread <= screen_width * player.fov) by (nonlinear_arith)
        requires
            spread == player.fov * i,
            i < screen_width,
            0 <= player.fov,
    ;
    let part = spread / (screen_width as i128);
    proof {
        vstd::arithmetic::div_mod::lemma_multiply_divide_le(
            spread as int,
            screen_width as int,
            player.fov as int,
        );
    }
    (player.a as i128 - (player.fov / 2) as i128 + part) as i64
}

/// Seen straight along the heading (a cosine of exactly one), the distance
/// needs no fisheye correction: the slice height is the screen height times
/// the cell size over the raw distance.
pub proof fn lemma_on_axis_uncorrected(distance: int, screen_height: int, block_size: int)
    requires
        distance > 0,
        screen_height >= 0,
        block_size >= 0,
    ensures
        slice_height(distance, COS_ONE as int, screen_height, block_size) == screen_height
            * block_size / distance,
{
    let c = COS_ONE as int;
    let base = screen_height * block_size;
    assert(base >= 0) by (nonlinear_arith)
        requires
            screen_height >= 0,
            block_size >= 0,
            base == screen_height * block_size,
    ;
    assert(distance * c > 0) by (nonlinear_arith)
        requires
            distance > 0,
            c == 65536,
    ;
    vstd::arithmetic::div_mod::lemma_div_by_multiple(base, c);
    vstd::arithmetic::div_mod::lemma_div_denominator(base * c, c, distance);
    assert(c * distance == distance * c) by (nonlinear_arith);
    assert(screen_height * block_size * c == base * c);
}

/// A column whose slice lies wholly off the screen keeps every pixel it had.
pub proof fn lemma_hidden_column_untouched(
    buf: Seq<u32>,
    width: int,
    screen_height: int,
    maze: Seq<Vec<char>>,
    block_size: int,
    player: Player,
    texture: Texture,
    rays: Seq<Ray>,
    k: int,
)
    requires
        width > 0,
        0 <= k < buf.len(),
        k % width < rays.len(),
        slice_hidden(
            screen_height,
            column_slice(maze, block_size, player, rays[k % width], screen_height, texture).0,
        ),
    ensures
        frame(buf, width, screen_height, maze, block_size, player, texture, rays)[k] == buf[k],
{
}

/// Rendering is deterministic and idempotent: the frame depends on the
/// inputs alone, and drawing it again over itself changes no pixel.
pub proof fn lemma_render_twice(
    buf: Seq<u32>,
    width: int,
    screen_height: int,
    maze: Seq<Vec<char>>,
    block_size: int,
    player: Player,
    texture: Texture,
    rays: Seq<Ray>,
)
    ensures
        ({
            let once = frame(buf, width, screen_height, maze, block_size, player, texture, rays);
            frame(once, width, screen_height, maze, block_size, player, texture, rays) == once
        }),
{
    let once = frame(buf, width, screen_height, maze, block_size, player, texture, rays);
    let twice = frame(once, width, screen_height, maze, block_size, player, texture, rays);
    assert(twice =~= once);
}

} // verus!
