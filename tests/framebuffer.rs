use maze_runner::font::banner_track;
use maze_runner::framebuffer::Framebuffer;

#[test]
fn new_buffer_is_black_with_white_pen() {
    let fb = Framebuffer::new(4, 3);
    assert_eq!(fb.width, 4);
    assert_eq!(fb.height, 3);
    assert_eq!(fb.buffer, vec![0u32; 12]);
    assert_eq!(fb.background_color, 0x000000);
    assert_eq!(fb.current_color, 0xFFFFFF);
}

#[test]
fn point_writes_inside_and_ignores_outside() {
    let mut fb = Framebuffer::new(4, 3);
    fb.point(2, 1, 0x123456);
    assert_eq!(fb.buffer[1 * 4 + 2], 0x123456);
    fb.point(4, 0, 0xFF);
    fb.point(0, 3, 0xFF);
    assert_eq!(fb.buffer.iter().filter(|&&c| c != 0).count(), 1);
}

#[test]
fn clear_fills_with_background() {
    let mut fb = Framebuffer::new(3, 2);
    fb.point(1, 1, 7);
    fb.set_background_color(0xADD8E6);
    fb.clear();
    assert_eq!(fb.buffer, vec![0xADD8E6u32; 6]);
    fb.set_current_color(0x00FF00);
    assert_eq!(fb.current_color, 0x00FF00);
    assert_eq!(fb.background_color, 0xADD8E6);
}

#[test]
fn fill_block_clips_to_screen() {
    let mut fb = Framebuffer::new(3, 3);
    fb.fill_block(-1, 1, 3, 5, 9);
    let expected = vec![0, 0, 0, 9, 9, 0, 9, 9, 0];
    assert_eq!(fb.buffer, expected);
}

#[test]
fn draw_character_paints_glyph_cells() {
    // 'i' lights the middle column of rows 1 to 3.
    let mut fb = Framebuffer::new(5, 5);
    fb.draw_character('i', 0, 0, 1, 0xFFFFFF);
    for y in 0..5 {
        for x in 0..5 {
            let lit = x == 2 && (1..=3).contains(&y);
            assert_eq!(fb.buffer[y * 5 + x] == 0xFFFFFF, lit, "pixel {} {}", x, y);
        }
    }
}

#[test]
fn draw_character_scales_cells() {
    let mut fb = Framebuffer::new(10, 10);
    fb.draw_character('l', 0, 0, 2, 5);
    // Column 1 of 'l' is set in every row: pixels 2..4 of each pixel row.
    for y in 0..10 {
        assert_eq!(fb.buffer[y * 10 + 2], 5);
        assert_eq!(fb.buffer[y * 10 + 3], 5);
        assert_eq!(fb.buffer[y * 10 + 0], 0);
    }
    // The bottom row also lights columns 2 and 3 of the glyph.
    assert_eq!(fb.buffer[9 * 10 + 6], 5);
    assert_eq!(fb.buffer[7 * 10 + 6], 0);
}

#[test]
fn draw_character_unknown_is_blank() {
    let mut fb = Framebuffer::new(6, 6);
    fb.draw_character('Z', 0, 0, 1, 3);
    assert_eq!(fb.buffer, vec![0u32; 36]);
}

#[test]
fn draw_character_off_screen_left() {
    let mut fb = Framebuffer::new(5, 5);
    fb.draw_character('j', -4, 0, 1, 8);
    // Only glyph column 4 lands on screen, in screen column 0; it is set in
    // rows 0 to 3.
    for y in 0..5 {
        assert_eq!(fb.buffer[y * 5], if y < 4 { 8 } else { 0 });
        assert_eq!(fb.buffer[y * 5 + 1], 0);
    }
}

#[test]
fn draw_character_moving_spaces_glyphs() {
    let mut fb = Framebuffer::new(50, 25);
    // scale 1: cells 5 pixels wide, glyphs 30 pixels apart.
    fb.draw_character_moving("ii", 0, 0, 1, 4);
    assert_eq!(fb.buffer[5 * 50 + 10], 4);
    assert_eq!(fb.buffer[19 * 50 + 14], 4);
    assert_eq!(fb.buffer[20 * 50 + 10], 0);
    assert_eq!(fb.buffer[4 * 50 + 10], 0);
    assert_eq!(fb.buffer[5 * 50 + 40], 4);
    assert_eq!(fb.buffer[5 * 50 + 39], 0);
    let mut other = Framebuffer::new(50, 25);
    other.draw_character('i', 30, 0, 5, 4);
    other.draw_character('i', 0, 0, 5, 4);
    assert_eq!(fb.buffer, other.buffer);
}

#[test]
fn banner_scrolls_from_right_edge_past_left_edge() {
    // 29 characters at scale 2: cells 10 wide, glyphs 60 apart.
    assert_eq!(banner_track(500, 300, 29, 2), (500, -1740, 145));
    assert_eq!(banner_track(7, 3, 0, 1), (7, 0, -1));
}
