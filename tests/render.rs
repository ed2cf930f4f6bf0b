use maze_runner::framebuffer::Framebuffer;
use maze_runner::maze::SUBUNITS;
use maze_runner::minimap::draw_minimap;
use maze_runner::player::{Player, FULL_TURN};
use maze_runner::render::{draw_wall_slice, project, ray_angle, render, render_frame, Ray, COS_ONE};
use maze_runner::texture::{texture_x, Texture};

fn maze_of(rows: &[&str]) -> Vec<Vec<char>> {
    rows.iter().map(|r| r.chars().collect()).collect()
}

fn player_at(x: i64, y: i64) -> Player {
    Player { x: x * SUBUNITS, y: y * SUBUNITS, a: 0, fov: FULL_TURN / 6, move_speed: 5, rot_speed: 1043 }
}

fn two_tone() -> Texture {
    Texture { width: 1, height: 2, pixels: vec![0xAA0000, 0x00BB00] }
}

#[test]
fn projection_on_axis_needs_no_correction() {
    // Height = screen height * cell size / distance.
    assert_eq!(project(50, COS_ONE, 300, 100), 600);
    assert_eq!(project(70, COS_ONE, 300, 100), 428);
}

#[test]
fn projection_corrects_for_fisheye() {
    // At 60 degrees off the heading the corrected distance halves.
    assert_eq!(project(100, COS_ONE / 2, 300, 100), 600);
}

#[test]
fn projection_guards_zero_and_negative_corrected_distance() {
    assert_eq!(project(50, 0, 300, 100), 0);
    assert_eq!(project(50, -COS_ONE / 3, 300, 100), 0);
    assert_eq!(project(0, COS_ONE, 300, 100), 0);
}

#[test]
fn texture_column_follows_position_in_cell() {
    assert_eq!(texture_x(250, 100, 64), 32);
    assert_eq!(texture_x(199, 100, 64), 63);
    assert_eq!(texture_x(300, 100, 64), 0);
}

#[test]
fn wall_slice_samples_texture_rows() {
    let mut fb = Framebuffer::new(2, 10);
    draw_wall_slice(&mut fb, 1, 4, &two_tone(), 0);
    // Top at 10 / 2 - 4 / 2 = 3; texel rows 0, 0, 1, 1.
    let column: Vec<u32> = (0..10).map(|y| fb.buffer[y * 2 + 1]).collect();
    assert_eq!(column, vec![0, 0, 0, 0xAA0000, 0xAA0000, 0x00BB00, 0x00BB00, 0, 0, 0]);
    assert!((0..10).all(|y| fb.buffer[y * 2] == 0));
}

#[test]
fn wall_slice_taller_than_screen_is_clipped() {
    let mut fb = Framebuffer::new(1, 4);
    draw_wall_slice(&mut fb, 0, 8, &two_tone(), 0);
    // Top at 2 - 4 = -2: rows 0..4 show slice rows 2..6, texel rows 0, 0, 1, 1.
    assert_eq!(fb.buffer, vec![0xAA0000, 0xAA0000, 0x00BB00, 0x00BB00]);
}

#[test]
fn wall_slice_off_screen_writes_nothing() {
    let mut fb = Framebuffer::new(1, 1);
    fb.set_background_color(7);
    fb.clear();
    // Bottom at 1 / 2 + 1 / 2 = 0: the slice lies above the screen.
    fb.set_current_color(0x123456);
    draw_wall_slice(&mut fb, 0, 1, &two_tone(), 0);
    assert_eq!(fb.buffer, vec![7]);
    assert_eq!(fb.current_color, 0x123456);
}

#[test]
fn wall_slice_drawn_chooses_white() {
    let mut fb = Framebuffer::new(2, 10);
    fb.set_current_color(0);
    draw_wall_slice(&mut fb, 1, 4, &two_tone(), 0);
    assert_eq!(fb.current_color, 0xFFFFFF);
    // Also for a column to the right of the screen, as long as the slice is
    // not above or below it.
    let mut other = Framebuffer::new(2, 10);
    other.set_current_color(0);
    draw_wall_slice(&mut other, 5, 4, &two_tone(), 0);
    assert_eq!(other.current_color, 0xFFFFFF);
    assert_eq!(other.buffer, vec![0u32; 20]);
}

#[test]
fn render_frame_draws_map_over_view() {
    let maze = maze_of(&["###", "# #", "###"]);
    let rays = vec![Ray { step_x: 10 * SUBUNITS, step_y: 0, cos_offset: COS_ONE }; 40];
    let p = player_at(150, 150);
    let mut fb = Framebuffer::new(40, 40);
    fb.set_current_color(0);
    render_frame(&mut fb, &p, &two_tone(), &maze, 100, &rays, 10);
    // Every column shows the wall; the map covers (10, 10) to (40, 40).
    assert_eq!(fb.buffer[0], 0xAA0000);
    assert_eq!(fb.buffer[10 * 40 + 10], 0x808080);
    assert_eq!(fb.buffer[20 * 40 + 20], 0x000000);
    assert_eq!(fb.buffer[25 * 40 + 25], 0xFF0000);
    assert_eq!(fb.current_color, 0xFFFFFF);
}

#[test]
fn ray_angles_spread_over_field_of_view() {
    let mut p = player_at(0, 0);
    p.a = 1000;
    p.fov = 600;
    assert_eq!(ray_angle(&p, 3, 0), 700);
    assert_eq!(ray_angle(&p, 3, 1), 900);
    assert_eq!(ray_angle(&p, 3, 2), 1100);
    // A single column looks down the left edge of the view.
    assert_eq!(ray_angle(&p, 1, 0), 700);
}

#[test]
fn single_column_on_heading_uses_raw_distance() {
    let maze = maze_of(&["###", "# #", "###"]);
    let mut fb = Framebuffer::new(1, 300);
    let rays = vec![Ray { step_x: 10 * SUBUNITS, step_y: 0, cos_offset: COS_ONE }];
    render(&mut fb, &player_at(150, 150), &two_tone(), &maze, 100, &rays);
    // Distance 50 gives a slice 600 tall, wider than the screen: every row drawn,
    // the upper half from texel row 0 and the lower from texel row 1.
    assert_eq!(fb.buffer[0], 0xAA0000);
    assert_eq!(fb.buffer[149], 0xAA0000);
    assert_eq!(fb.buffer[150], 0x00BB00);
    assert_eq!(fb.buffer[299], 0x00BB00);
}

#[test]
fn render_draws_each_column_independently() {
    let maze = maze_of(&["#####", "#   #", "#####"]);
    let mut fb = Framebuffer::new(2, 100);
    let rays = vec![
        Ray { step_x: 10 * SUBUNITS, step_y: 0, cos_offset: COS_ONE },
        Ray { step_x: -10 * SUBUNITS, step_y: 0, cos_offset: COS_ONE },
    ];
    render(&mut fb, &player_at(150, 150), &two_tone(), &maze, 100, &rays);
    // Right: wall at 400, distance 250, height 40, rows 30..70.
    // Left: wall at 100, but the march reaches x = 100 at distance 50:
    // height 200, every row.
    assert_eq!(fb.buffer[29 * 2], 0);
    assert_eq!(fb.buffer[30 * 2], 0xAA0000);
    assert_eq!(fb.buffer[69 * 2], 0x00BB00);
    assert_eq!(fb.buffer[70 * 2], 0);
    assert!((0..100).all(|y| fb.buffer[y * 2 + 1] != 0));
}

#[test]
fn render_skips_column_with_perpendicular_ray() {
    let maze = maze_of(&["###", "# #", "###"]);
    let mut fb = Framebuffer::new(1, 50);
    fb.set_background_color(9);
    fb.clear();
    let rays = vec![Ray { step_x: 0, step_y: 10 * SUBUNITS, cos_offset: 0 }];
    fb.set_current_color(3);
    render(&mut fb, &player_at(150, 150), &two_tone(), &maze, 100, &rays);
    assert_eq!(fb.buffer, vec![9u32; 50]);
    // An empty slice at mid-screen is not above or below the screen, so it
    // still chooses white, though it draws no pixel.
    assert_eq!(fb.current_color, 0xFFFFFF);
}

#[test]
fn rendering_twice_gives_identical_frames() {
    let maze = maze_of(&["#####", "#   #", "#  ##", "#####"]);
    let rays: Vec<Ray> = (0..8)
        .map(|i| {
            let angle = -0.5 + 0.14 * i as f64;
            Ray {
                step_x: (2560.0 * angle.cos()).round() as i64,
                step_y: (2560.0 * angle.sin()).round() as i64,
                cos_offset: (COS_ONE as f64 * (angle - 0.2).cos()).round() as i64,
            }
        })
        .collect();
    let p = player_at(170, 160);
    let mut once = Framebuffer::new(8, 60);
    render(&mut once, &p, &two_tone(), &maze, 100, &rays);
    let mut again = Framebuffer::new(8, 60);
    render(&mut again, &p, &two_tone(), &maze, 100, &rays);
    assert_eq!(once.buffer, again.buffer);
    let first = once.buffer.clone();
    render(&mut once, &p, &two_tone(), &maze, 100, &rays);
    assert_eq!(once.buffer, first);
}

#[test]
fn player_moves_only_into_open_cells() {
    let maze = maze_of(&["###", "# #", "###"]);
    let mut p = player_at(150, 150);
    p.move_forward(40 * SUBUNITS, 0, &maze, 100);
    assert_eq!((p.x, p.y), (190 * SUBUNITS, 150 * SUBUNITS));
    p.move_forward(20 * SUBUNITS, 0, &maze, 100);
    assert_eq!((p.x, p.y), (190 * SUBUNITS, 150 * SUBUNITS));
    p.move_backward(0, -5 * SUBUNITS, &maze, 100);
    assert_eq!((p.x, p.y), (190 * SUBUNITS, 155 * SUBUNITS));
    p.move_backward(200 * SUBUNITS, 0, &maze, 100);
    assert_eq!((p.x, p.y), (190 * SUBUNITS, 155 * SUBUNITS));
}

#[test]
fn rotation_wraps_within_a_turn() {
    let mut p = player_at(0, 0);
    p.a = 65000;
    p.rotate_right(1000);
    assert_eq!(p.a, 464);
    p.rotate_left(1000);
    assert_eq!(p.a, -536);
    p.rotate_left(FULL_TURN);
    assert_eq!(p.a, -536);
}

#[test]
fn minimap_draws_cells_and_marker() {
    let maze = maze_of(&["# "]);
    let mut fb = Framebuffer::new(20, 20);
    fb.set_background_color(1);
    fb.clear();
    let p = player_at(150, 50);
    draw_minimap(&mut fb, &p, &maze, 100, 10);
    // Cells are 10 pixels wide, from (10, 10); the marker is 5 wide at (25, 15).
    assert_eq!(fb.buffer[10 * 20 + 10], 0x808080);
    assert_eq!(fb.buffer[19 * 20 + 19], 0x808080);
    assert_eq!(fb.buffer[9 * 20 + 10], 1);
    assert_eq!(fb.buffer[10 * 20 + 9], 1);
    let mut wide = Framebuffer::new(40, 40);
    draw_minimap(&mut wide, &p, &maze, 100, 10);
    assert_eq!(wide.buffer[10 * 40 + 25], 0x000000);
    assert_eq!(wide.buffer[15 * 40 + 25], 0xFF0000);
    assert_eq!(wide.buffer[19 * 40 + 29], 0xFF0000);
    assert_eq!(wide.buffer[20 * 40 + 29], 0);
    assert_eq!(wide.buffer[10 * 40 + 20], 0x000000);
}
