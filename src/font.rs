//! A 5 by 5 bitmap font for the few letters of the welcome banner.
use vstd::prelude::*;

verus! {

/// The rows of the glyph for `c`, top row first; bit 4 of a row is its
/// leftmost pixel. Characters without a glyph are blank.
pub open spec fn glyph_rows(c: char) -> Seq<u8> {
    if c == 'B' {
        seq![0b01110u8, 0b10001u8, 0b01110u8, 0b10001u8, 0b01110u8]
    } else if c == 'i' {
        seq![0b00000u8, 0b00100u8, 0b00100u8, 0b00100u8, 0b00000u8]
    } else if c == 'e' {
        seq![0b01110u8, 0b10000u8, 0b11111u8, 0b10000u8, 0b01110u8]
    } else if c == 'n' {
        seq![0b00000u8, 0b11100u8, 0b10010u8, 0b10001u8, 0b10001u8]
    } else if c == 'v' {
        seq![0b00000u8, 0b10001u8, 0b10001u8, 0b01010u8, 0b00100u8]
    } else if c == 'l' {
        seq![0b01000u8, 0b01000u8, 0b01000u8, 0b01000u8, 0b01110u8]
    } else if c == 'o' || c == 'd' {
        seq![0b01110u8, 0b10001u8, 0b10001u8, 0b10001u8, 0b01110u8]
    } else if c == 'a' {
        seq![0b01110u8, 0b10001u8, 0b11111u8, 0b10001u8, 0b10001u8]
    } else if c == 'j' {
        seq![0b00001u8, 0b00001u8, 0b00001u8, 0b10001u8, 0b01110u8]
    } else if c == 'u' {
        seq![0b00000u8, 0b10001u8, 0b10001u8, 0b10001u8, 0b01110u8]
    } else if c == 'm' {
        seq![0b00000u8, 0b11011u8, 0b10101u8, 0b10001u8, 0b10001u8]
    } else if c == 'x' {
        seq![0b00000u8, 0b10001u8, 0b01010u8, 0b01010u8, 0b10001u8]
    } else if c == 's' {
        seq![0b01110u8, 0b10000u8, 0b01110u8, 0b00001u8, 0b01110u8]
    } else {
        seq![0u8, 0u8, 0u8, 0u8, 0u8]
    }
}

/// Whether the pixel in row `row` and column `col` of the glyph for `c` is set.
pub open spec fn glyph_lit(c: char, row: int, col: int) -> bool {
    (glyph_rows(c)[row] >> ((4 - col) as u8)) & 1u8 == 1u8
}

/// The row `row` (below 5) of the glyph for `c`.
pub fn glyph_row(c: char, row: usize) -> (r: u8)
    requires
        row < 5,
    ensures
        r == glyph_rows(c)[row as int],
{
    let rows: [u8; 5] = if c == 'B' {
        [0b01110, 0b10001, 0b01110, 0b10001, 0b01110]
    } else if c == 'i' {
        [0b00000, 0b00100, 0b00100, 0b00100, 0b00000]
    } else if c == 'e' {
        [0b01110, 0b10000, 0b11111, 0b10000, 0b01110]
    } else if c == 'n' {
        [0b00000, 0b11100, 0b10010, 0b10001, 0b10001]
    } else if c == 'v' {
        [0b00000, 0b10001, 0b10001, 0b01010, 0b00100]
    } else if c == 'l' {
        [0b01000, 0b01000, 0b01000, 0b01000, 0b01110]
    } else if c == 'o' || c == 'd' {
        [0b01110, 0b10001, 0b10001, 0b10001, 0b01110]
    } else if c == 'a' {
        [0b01110, 0b10001, 0b11111, 0b10001, 0b10001]
    } else if c == 'j' {
        [0b00001, 0b00001, 0b00001, 0b10001, 0b01110]
    } else if c == 'u' {
        [0b00000, 0b10001, 0b10001, 0b10001, 0b01110]
    } else if c == 'm' {
        [0b00000, 0b11011, 0b10101, 0b10001, 0b10001]
    } else if c == 'x' {
        [0b00000, 0b10001, 0b01010, 0b01010, 0b10001]
    } else if c == 's' {
        [0b01110, 0b10000, 0b01110, 0b00001, 0b01110]
    } else {
        [0, 0, 0, 0, 0]
    };
    assert(rows@ =~= glyph_rows(c));
    rows[row]
}

/// Whether the pixel in row `row` and column `col` of the glyph for `c` is set.
pub fn glyph_pixel(c: char, row: usize, col: usize) -> (r: bool)
    requires
        row < 5,
        col < 5,
    ensures
        r == glyph_lit(c, row as int, col as int),
{
    let bits = glyph_row(c, row);
    (bits >> ((4 - col) as u8)) & 1 == 1
}

/// Where a banner of `text_len` characters at `scale` scrolls across a screen
/// of `screen_width` by `screen_height`: its left edge runs from
/// `screen_width` down to just past the left of the screen, so that the whole
/// text has gone by, on a row that centres one glyph cell vertically.
/// Returns the first and the end of the range of left edges, and the row.
pub fn banner_track(screen_width: usize, screen_height: usize, text_len: usize, scale: usize) -> (r: (i32, i32, i32))
    requires
        screen_width <= i32::MAX,
        screen_height <= i32::MAX,
        5 * scale <= i32::MAX,
        text_len * 30 * scale <= i32::MAX,
    ensures
        r.0 == screen_width,
        r.1 == -(text_len * 5 * scale * 6),
        r.2 == screen_height as int / 2 - (5 * scale) as int / 2,
{
    assert(text_len * 5 * scale * 6 == text_len * 30 * scale) by (nonlinear_arith);
    assert(text_len * (5 * scale) <= 0xFFFF_FFFF_FFFF_FFFFu64 * 0x7FFF_FFFF) by (nonlinear_arith)
        requires
            text_len <= 0xFFFF_FFFF_FFFF_FFFFu64,
            5 * scale <= 0x7FFF_FFFF,
    ;
    let block_size: i64 = 5 * scale as i64;
    let total = (text_len as i128) * (block_size as i128) * 6;
    assert(total == text_len * 30 * scale) by (nonlinear_arith)
        requires
            total == text_len * block_size * 6,
            block_size == 5 * scale,
    ;
    (screen_width as i32, -(total as i32), (screen_height / 2) as i32 - (block_size / 2) as i32)
}

} // verus!
