//! A flat, row-major pixel buffer with a small set of drawing operations.
use vstd::arithmetic::div_mod::{
    lemma_div_pos_is_pos, lemma_fundamental_div_mod, lemma_fundamental_div_mod_converse,
    lemma_mod_pos_bound,
};
use crate::font::{glyph_lit, glyph_pixel};
use vstd::prelude::*;
use vstd::string::StrSliceExecFns;

verus! {

/// An axis-aligned rectangle of pixels, in screen coordinates, with the
/// colour it is painted in. Pixels of it that lie off the screen are ignored.
pub struct Block {
    pub x: int,
    pub y: int,
    pub w: int,
    pub h: int,
    pub color: u32,
}

impl Block {
    pub open spec fn contains(self, px: int, py: int) -> bool {
        self.x <= px < self.x + self.w && self.y <= py < self.y + self.h
    }
}

/// `buf`, seen as rows of `width` pixels, with `b` painted over it.
pub open spec fn fill(buf: Seq<u32>, width: int, b: Block) -> Seq<u32> {
    Seq::new(buf.len(), |k: int| if b.contains(k % width, k / width) { b.color } else { buf[k] })
}

/// `buf` with the blocks painted over it in order, later ones on top.
pub open spec fn paint(buf: Seq<u32>, width: int, blocks: Seq<Block>) -> Seq<u32>
    decreases blocks.len(),
{
    if blocks.len() == 0 {
        buf
    } else {
        fill(paint(buf, width, blocks.drop_last()), width, blocks.last())
    }
}

/// The index of the pixel at column `x` and row `y` lies in the buffer, and
/// maps back to that column and row.
pub proof fn lemma_pixel_index(x: int, y: int, width: int, height: int)
    requires
        0 <= x < width,
        0 <= y < height,
    ensures
        0 <= y * width + x < width * height,
        (y * width + x) % width == x,
        (y * width + x) / width == y,
{
    assert(0 <= y * width + x < width * height) by (nonlinear_arith)
        requires
            0 <= x < width,
            0 <= y < height,
    ;
    lemma_fundamental_div_mod_converse(y * width + x, width, y, x);
}

/// Pixel `k` of a buffer of rows `width` wide stands in column `k % width`
/// of row `k / width`.
pub proof fn lemma_pixel_coords(k: int, width: int)
    requires
        0 <= k,
        0 < width,
    ensures
        k == width * (k / width) + k % width,
        0 <= k % width < width,
        0 <= k / width,
{
    lemma_fundamental_div_mod(k, width);
    lemma_mod_pos_bound(k, width);
    lemma_div_pos_is_pos(k, width);
}

/// The blocks of the first `n` cells, in row-major order, of the glyph for
/// `c` drawn at (`x`, `y`) with cells `size` pixels wide: one block per set
/// pixel of the glyph.
pub open spec fn glyph_blocks(c: char, x: int, y: int, size: int, color: u32, n: nat) -> Seq<
    Block,
>
    decreases n,
{
    if n == 0 {
        seq![]
    } else {
        let prev = glyph_blocks(c, x, y, size, color, (n - 1) as nat);
        let row = (n - 1) / 5;
        let col = (n - 1) % 5;
        if glyph_lit(c, row, col) {
            prev.push(Block { x: x + col * size, y: y + row * size, w: size, h: size, color })
        } else {
            prev
        }
    }
}

/// The blocks of the first `n` characters of `text`, each glyph set six cells
/// to the right of the one before.
pub open spec fn text_blocks(text: Seq<char>, x: int, y: int, size: int, color: u32, n: nat) -> Seq<
    Block,
>
    decreases n,
{
    if n == 0 {
        seq![]
    } else {
        text_blocks(text, x, y, size, color, (n - 1) as nat) + glyph_blocks(
            text[n - 1],
            x + (n - 1) * size * 6,
            y,
            size,
            color,
            25,
        )
    }
}

/// Painting one list of blocks and then another is painting their
/// concatenation.
pub proof fn lemma_paint_concat(buf: Seq<u32>, width: int, a: Seq<Block>, b: Seq<Block>)
    ensures
        paint(paint(buf, width, a), width, b) == paint(buf, width, a + b),
    decreases b.len(),
{
    if b.len() == 0 {
        assert(a + b =~= a);
    } else {
        lemma_paint_concat(buf, width, a, b.drop_last());
        assert((a + b).drop_last() =~= a + b.drop_last());
        assert((a + b).last() == b.last());
    }
}

pub struct Framebuffer {
    pub width: usize,
    pub height: usize,
    pub buffer: Vec<u32>,
    pub background_color: u32,
    pub current_color: u32,
}

impl Framebuffer {
    /// The buffer holds exactly one colour per pixel of the screen.
    pub open spec fn wf(&self) -> bool {
        self.buffer@.len() == self.width * self.height
    }

    pub fn new(width: usize, height: usize) -> (r: Self)
        requires
            width * height <= usize::MAX,
        ensures
            r.wf(),
            r.width == width,
            r.height == height,
            r.buffer@ == Seq::new((width * height) as nat, |k: int| 0u32),
            r.background_color == 0,
            r.current_color == 0xFFFFFF,
    {
        let r = Framebuffer {
            width,
            height,
            buffer: vec![0; width * height],
            background_color: 0x000000,
            current_color: 0xFFFFFF,
        };
        assert(r.buffer@ =~= Seq::new((width * height) as nat, |k: int| 0u32));
        r
    }

    pub fn clear(&mut self)
        ensures
            final(self).width == old(self).width,
            final(self).height == old(self).height,
            final(self).background_color == old(self).background_color,
            final(self).current_color == old(self).current_color,
            final(self).buffer@ == Seq::new(
                old(self).buffer@.len(),
                |k: int| old(self).background_color,
            ),
    {
        let n = self.buffer.len();
        let mut i: usize = 0;
        while i < n
            invariant
                0 <= i <= n,
                n == self.buffer@.len(),
                self.width == old(self).width,
                self.height == old(self).height,
                self.background_color == old(self).background_color,
                self.current_color == old(self).current_color,
                old(self).buffer@.len() == n,
                forall|k: int| 0 <= k < i ==> self.buffer@[k] == self.background_color,
            decreases n - i,
        {
            let c = self.background_color;
            self.buffer.set(i, c);
            i += 1;
        }
        assert(self.buffer@ =~= Seq::new(n as nat, |k: int| old(self).background_color));
    }

    pub fn point(&mut self, x: usize, y: usize, color: u32)
        requires
            old(self).wf(),
        ensures
            final(self).wf(),
            final(self).width == old(self).width,
            final(self).height == old(self).height,
            final(self).background_color == old(self).background_color,
            final(self).current_color == old(self).current_color,
            final(self).buffer@ == if x < old(self).width && y < old(self).height {
                old(self).buffer@.update(y * old(self).width + x, color)
            } else {
                old(self).buffer@
            },
    {
        if x < self.width && y < self.height {
            // The length of the buffer bounds the index below.
            let _len = self.buffer.len();
            proof {
                lemma_pixel_index(x as int, y as int, self.width as int, self.height as int);
            }
            let k = y * self.width + x;
            self.buffer.set(k, color);
        }
    }

    pub fn set_background_color(&mut self, color: u32)
        ensures
            final(self).width == old(self).width,
            final(self).height == old(self).height,
            final(self).buffer@ == old(self).buffer@,
            final(self).background_color == color,
            final(self).current_color == old(self).current_color,
    {
        self.background_color = color;
    }

    pub fn set_current_color(&mut self, color: u32)
        ensures
            final(self).width == old(self).width,
            final(self).height == old(self).height,
            final(self).buffer@ == old(self).buffer@,
            final(self).background_color == old(self).background_color,
            final(self).current_color == color,
    {
        self.current_color = color;
    }
    /// Paints the part of the `bw` by `bh` block at (`x0`, `y0`) that lies on
    /// the screen.
    pub fn fill_block(&mut self, x0: i64, y0: i64, bw: i64, bh: i64, color: u32)
        requires
            old(self).wf(),
        ensures
            final(self).wf(),
            final(self).width == old(self).width,
            final(self).height == old(self).height,
            final(self).background_color == old(self).background_color,
            final(self).current_color == old(self).current_color,
            final(self).buffer@ == fill(
                old(self).buffer@,
                old(self).width as int,
                Block { x: x0 as int, y: y0 as int, w: bw as int, h: bh as int, color },
            ),
    {
        let ghost b = Block { x: x0 as int, y: y0 as int, w: bw as int, h: bh as int, color };
        let ghost w = self.width as int;
        let ghost old_buf = self.buffer@;
        let n = self.buffer.len();
        let xs: i128 = if x0 < 0 { 0 } else { x0 as i128 };
        let ys: i128 = if y0 < 0 { 0 } else { y0 as i128 };
        let xe: i128 = if (x0 as i128) + (bw as i128) < self.width as i128 {
            (x0 as i128) + (bw as i128)
        } else {
            self.width as i128
        };
        let ye: i128 = if (y0 as i128) + (bh as i128) < self.height as i128 {
            (y0 as i128) + (bh as i128)
        } else {
            self.height as i128
        };
        if xs >= xe || ys >= ye {
            proof {
                assert forall|k: int| 0 <= k < old_buf.len() implies fill(old_buf, w, b)[k] == old_buf[k] by {
                    lemma_pixel_coords(k, w);
                    assert(k / w < self.height) by (nonlinear_arith)
                        requires
                            0 <= k < w * self.height,
                            k == w * (k / w) + k % w,
                            0 <= k % w < w,
                    ;
                }
            }
            assert(self.buffer@ =~= fill(old_buf, w, b));
            return;
        }
        let x_first = xs as usize;
        let x_end = xe as usize;
        let y_end = ye as usize;
        let mut y = ys as usize;
        while y < y_end
            invariant
                self.wf(),
                self.width == old(self).width,
                self.height == old(self).height,
                self.background_color == old(self).background_color,
                self.current_color == old(self).current_color,
                w == self.width,
                b == (Block { x: x0 as int, y: y0 as int, w: bw as int, h: bh as int, color }),
                n == self.buffer@.len(),
                old_buf == old(self).buffer@,
                n == old_buf.len(),
                0 <= xs < xe <= self.width,
                0 <= ys < ye <= self.height,
                x_first == xs,
                x_end == xe,
                y_end == ye,
                ys <= y <= ye,
                xs == if x0 < 0 { 0 } else { x0 as int },
                ys == if y0 < 0 { 0 } else { y0 as int },
                xe == if x0 + bw < self.width { x0 + bw } else { self.width as int },
                ye == if y0 + bh < self.height { y0 + bh } else { self.height as int },
                forall|k: int|
                    0 <= k < n ==> self.buffer@[k] == if b.contains(k % w, k / w) && k / w < y {
                        color
                    } else {
                        old_buf[k]
                    },
            decreases y_end - y,
        {
            proof {
                assert forall|j: int| 0 <= j < n && b.contains(#[trigger] (j % w), j / w) implies j % w >= xs by {
                    lemma_pixel_coords(j, w);
                }
            }
            let mut x = x_first;
            while x < x_end
                invariant
                    self.wf(),
                    self.width == old(self).width,
                    self.height == old(self).height,
                    self.background_color == old(self).background_color,
                    self.current_color == old(self).current_color,
                    w == self.width,
                    b == (Block { x: x0 as int, y: y0 as int, w: bw as int, h: bh as int, color }),
                    n == self.buffer@.len(),
                    old_buf == old(self).buffer@,
                    n == old_buf.len(),
                    0 <= xs < xe <= self.width,
                    0 <= ys < ye <= self.height,
                    x_first == xs,
                    x_end == xe,
                    y_end == ye,
                    ys <= y < ye,
                    xs <= x <= xe,
                    xs == if x0 < 0 { 0 } else { x0 as int },
                    xe == if x0 + bw < self.width { x0 + bw } else { self.width as int },
                    ys == if y0 < 0 { 0 } else { y0 as int },
                    ye == if y0 + bh < self.height { y0 + bh } else { self.height as int },
                    forall|k: int|
                        0 <= k < n ==> self.buffer@[k] == if b.contains(k % w, k / w) && (k / w < y
                            || (k / w == y && k % w < x)) {
                            color
                        } else {
                            old_buf[k]
                        },
                decreases x_end - x,
            {
                proof {
                    lemma_pixel_index(x as int, y as int, w, self.height as int);
                }
                let k = y * self.width + x;
                let ghost before = self.buffer@;
                self.buffer.set(k, color);
                proof {
                    assert forall|j: int| 0 <= j < n implies self.buffer@[j] == if b.contains(
                        j % w,
                        j / w,
                    ) && (j / w < y || (j / w == y && j % w < x + 1)) {
                        color
                    } else {
                        old_buf[j]
                    } by {
                        lemma_pixel_coords(j, w);
                        assert(before[j] == if b.contains(j % w, j / w) && (j / w < y || (j / w
                            == y && j % w < x)) {
                            color
                        } else {
                            old_buf[j]
                        });
                        if j / w == y && j % w == x {
                            assert(j == k) by (nonlinear_arith)
                                requires
                                    j == w * (j / w) + j % w,
                                    j / w == y,
                                    j % w == x,
                                    k == y * w + x,
                            ;
                        }
                    }
                }
                x += 1;
            }
            proof {
                assert forall|j: int| 0 <= j < n implies self.buffer@[j] == if b.contains(
                    j % w,
                    j / w,
                ) && j / w < y + 1 {
                    color
                } else {
                    old_buf[j]
                } by {
                    lemma_pixel_coords(j, w);
                }
            }
            y += 1;
        }
        proof {
            assert forall|j: int| 0 <= j < n implies self.buffer@[j] == fill(old_buf, w, b)[j] by {
                lemma_pixel_coords(j, w);
                assert(j / w < self.height) by (nonlinear_arith)
                    requires
                        0 <= j < w * self.height,
                        j == w * (j / w) + j % w,
                        0 <= j % w < w,
                ;
            }
        }
        assert(self.buffer@ =~= fill(old_buf, w, b));
    }
    fn draw_glyph(&mut self, c: char, x: i64, y: i64, size: i64, color: u32)
        requires
            old(self).wf(),
            -0x2000_0000_0000_0000 <= x <= 0x2000_0000_0000_0000,
            -0x2000_0000_0000_0000 <= y <= 0x2000_0000_0000_0000,
            -0x1_0000_0000 <= size <= 0x1_0000_0000,
        ensures
            final(self).wf(),
            final(self).width == old(self).width,
            final(self).height == old(self).height,
            final(self).background_color == old(self).background_color,
            final(self).current_color == old(self).current_color,
            final(self).buffer@ == paint(
                old(self).buffer@,
                old(self).width as int,
                glyph_blocks(c, x as int, y as int, size as int, color, 25),
            ),
    {
        let ghost w = self.width as int;
        let mut k: usize = 0;
        while k < 25
            invariant
                self.wf(),
                self.width == old(self).width,
                self.height == old(self).height,
                self.background_color == old(self).background_color,
                self.current_color == old(self).current_color,
                w == self.width,
                -0x2000_0000_0000_0000 <= x <= 0x2000_0000_0000_0000,
                -0x2000_0000_0000_0000 <= y <= 0x2000_0000_0000_0000,
                -0x1_0000_0000 <= size <= 0x1_0000_0000,
                k <= 25,
                self.buffer@ == paint(
                    old(self).buffer@,
                    w,
                    glyph_blocks(c, x as int, y as int, size as int, color, k as nat),
                ),
            decreases 25 - k,
        {
            let row = k / 5;
            let col = k % 5;
            let ghost prev = glyph_blocks(c, x as int, y as int, size as int, color, k as nat);
            if glyph_pixel(c, row, col) {
                assert(-0x5_0000_0000 <= (col as i64) * size <= 0x5_0000_0000) by (nonlinear_arith)
                    requires
                        col < 5,
                        -0x1_0000_0000 <= size <= 0x1_0000_0000,
                ;
                assert(-0x5_0000_0000 <= (row as i64) * size <= 0x5_0000_0000) by (nonlinear_arith)
                    requires
                        row < 5,
                        -0x1_0000_0000 <= size <= 0x1_0000_0000,
                ;
                let bx = x + (col as i64) * size;
                let by = y + (row as i64) * size;
                self.fill_block(bx, by, size, size, color);
                proof {
                    let b = Block { x: bx as int, y: by as int, w: size as int, h: size as int, color };
                    assert(prev.push(b).drop_last() =~= prev);
                }
            }
            k += 1;
        }
    }

    pub fn draw_character(&mut self, c: char, x_start: i32, y_start: i32, block_size: i32, color: u32)
        requires
            old(self).wf(),
        ensures
            final(self).wf(),
            final(self).width == old(self).width,
            final(self).height == old(self).height,
            final(self).background_color == old(self).background_color,
            final(self).current_color == old(self).current_color,
            final(self).buffer@ == paint(
                old(self).buffer@,
                old(self).width as int,
                glyph_blocks(c, x_start as int, y_start as int, block_size as int, color, 25),
            ),
    {
        self.draw_glyph(c, x_start as i64, y_start as i64, block_size as i64, color);
    }

    pub fn draw_character_moving(
        &mut self,
        text: &str,
        x_start: i32,
        y_start: i32,
        scale: usize,
        color: u32,
    )
        requires
            old(self).wf(),
            5 * scale <= i32::MAX,
            text@.len() * 30 * scale <= 0x1000_0000_0000_0000,
        ensures
            final(self).wf(),
            final(self).width == old(self).width,
            final(self).height == old(self).height,
            final(self).background_color == old(self).background_color,
            final(self).current_color == old(self).current_color,
            final(self).buffer@ == paint(
                old(self).buffer@,
                old(self).width as int,
                text_blocks(
                    text@,
                    x_start as int,
                    y_start as int,
                    5 * scale,
                    color,
                    text@.len(),
                ),
            ),
    {
        let block_size: i64 = 5 * scale as i64;
        let n = text.unicode_len();
        let mut i: usize = 0;
        let mut x_offset: i64 = x_start as i64;
        while i < n
            invariant
                x_offset == x_start + i * block_size * 6,
                self.wf(),
                self.width == old(self).width,
                self.height == old(self).height,
                self.background_color == old(self).background_color,
                self.current_color == old(self).current_color,
                n == text@.len(),
                i <= n,
                block_size == 5 * scale,
                5 * scale <= i32::MAX,
                text@.len() * 30 * scale <= 0x1000_0000_0000_0000,
                self.buffer@ == paint(
                    old(self).buffer@,
                    self.width as int,
                    text_blocks(text@, x_start as int, y_start as int, 5 * scale, color, i as nat),
                ),
            decreases n - i,
        {
            let c = text.get_char(i);
            assert(0 <= (i as int) * block_size * 6 <= (i as int + 1) * block_size * 6
                <= text@.len() * 30 * scale) by (nonlinear_arith)
                requires
                    i < text@.len(),
                    block_size == 5 * scale,
                    0 <= scale,
            ;
            self.draw_glyph(c, x_offset, y_start as i64, block_size, color);
            proof {
                lemma_paint_concat(
                    old(self).buffer@,
                    self.width as int,
                    text_blocks(text@, x_start as int, y_start as int, 5 * scale, color, i as nat),
                    glyph_blocks(c, x_offset as int, y_start as int, block_size as int, color, 25),
                );
            }
            assert((i as int + 1) * block_size * 6 == i * block_size * 6 + block_size * 6)
                by (nonlinear_arith);
            x_offset = x_offset + block_size * 6;
            i += 1;
        }
    }
}

} // verus!
