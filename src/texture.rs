//! Wall textures: a grid of colours, one `0xRRGGBB` value per texel.
use crate::framebuffer::lemma_pixel_index;
use vstd::prelude::*;

verus! {

pub struct Texture {
    pub width: usize,
    pub height: usize,
    /// Row-major texels.
    pub pixels: Vec<u32>,
}

impl Texture {
    /// At least one texel, and exactly one colour per texel.
    pub open spec fn wf(&self) -> bool {
        &&& self.width >= 1
        &&& self.height >= 1
        &&& self.pixels@.len() == self.width * self.height
    }

    /// The colour of the texel in column `u` and row `v`.
    pub open spec fn texel_spec(&self, u: int, v: int) -> u32 {
        self.pixels@[v * self.width + u]
    }

    pub fn texel(&self, u: usize, v: usize) -> (r: u32)
        requires
            self.wf(),
            u < self.width,
            v < self.height,
        ensures
            r == self.texel_spec(u as int, v as int),
    {
        // The length of the texels bounds the index below.
        let _len = self.pixels.len();
        proof {
            lemma_pixel_index(u as int, v as int, self.width as int, self.height as int);
        }
        self.pixels[v * self.width + u]
    }
}

/// The texture column for a wall hit at world coordinate `hit`: where along
/// its cell the hit lies, scaled to the texture's width.
pub open spec fn texture_column(hit: int, block_size: int, texture_width: int) -> int {
    (hit % block_size) * texture_width / block_size
}

pub fn texture_x(hit: u64, block_size: usize, texture_width: usize) -> (r: usize)
    requires
        block_size > 0,
    ensures
        r == texture_column(hit as int, block_size as int, texture_width as int),
        texture_width > 0 ==> r < texture_width,
{
    let offset = (hit % (block_size as u64)) as u128;
    assert(offset * texture_width <= 0xFFFF_FFFF_FFFF_FFFF * 0xFFFF_FFFF_FFFF_FFFFu128)
        by (nonlinear_arith)
        requires
            offset <= 0xFFFF_FFFF_FFFF_FFFFu64,
            texture_width <= 0xFFFF_FFFF_FFFF_FFFFu64,
    ;
    let scaled = offset * (texture_width as u128);
    let r = scaled / (block_size as u128);
    proof {
        if texture_width > 0 {
            assert(scaled < block_size * texture_width) by (nonlinear_arith)
                requires
                    scaled == offset * texture_width,
                    offset < block_size,
                    texture_width > 0,
            ;
            vstd::arithmetic::div_mod::lemma_multiply_divide_lt(
                scaled as int,
                block_size as int,
                texture_width as int,
            );
        }
        vstd::arithmetic::div_mod::lemma_multiply_divide_le(
            scaled as int,
            block_size as int,
            texture_width as int,
        );
    }
    r as usize
}

} // verus!
