use maze_runner::caster::{cast_ray, STEP};
use maze_runner::maze::{cell_at, maze_fits_check, SUBUNITS};

fn maze_of(rows: &[&str]) -> Vec<Vec<char>> {
    rows.iter().map(|r| r.chars().collect()).collect()
}

fn at(world: i64) -> i64 {
    world * SUBUNITS
}

#[test]
fn ray_from_center_hits_border() {
    let maze = maze_of(&["###", "# #", "###"]);
    let hit = cast_ray(&maze, at(150), at(150), at(10), 0, 100);
    assert!(hit.wall);
    assert_eq!(hit.distance, 50);
    assert_eq!((hit.x, hit.y), (200, 150));
}

#[test]
fn ray_upward_hits_top_border() {
    let maze = maze_of(&["###", "# #", "###"]);
    let hit = cast_ray(&maze, at(150), at(150), 0, -at(10), 100);
    assert!(hit.wall);
    assert_eq!(hit.distance, 60);
    assert_eq!((hit.x, hit.y), (150, 90));
}

#[test]
fn ray_leaving_grid_falls_back_to_start() {
    let maze = maze_of(&["   "]);
    let hit = cast_ray(&maze, at(50), at(50), at(10), 0, 100);
    assert!(!hit.wall);
    // The point leaves the grid at x = 300, after 25 steps.
    assert_eq!(hit.distance, 250);
    assert_eq!((hit.x, hit.y), (50, 50));
}

#[test]
fn ray_leaving_through_left_edge() {
    let maze = maze_of(&["   "]);
    let hit = cast_ray(&maze, at(25), at(50), -at(10), 0, 100);
    assert!(!hit.wall);
    // x = 25, 15, 5, then -5 lies outside.
    assert_eq!(hit.distance, 30);
}

#[test]
fn ray_from_open_cell_travels_at_least_a_step() {
    let maze = maze_of(&["# #"]);
    let hit = cast_ray(&maze, at(150), at(50), 0, at(10), 100);
    assert!(hit.distance >= STEP);
    assert_eq!(hit.distance, 50);
    assert!(!hit.wall);
}

#[test]
fn ray_starting_in_wall_stops_at_once() {
    let maze = maze_of(&["##"]);
    let hit = cast_ray(&maze, at(30), at(30), at(10), 0, 100);
    assert!(hit.wall);
    assert_eq!(hit.distance, 0);
    assert_eq!((hit.x, hit.y), (30, 30));
}

#[test]
fn diagonal_ray_passes_between_walls() {
    let maze = maze_of(&["  #", "   ", "#  "]);
    // Step of (6, 8) world units: 10 long. The point is at (10 + 6k, 10 + 8k):
    // it passes no wall and leaves through the bottom at k = 37.
    let hit = cast_ray(&maze, at(10), at(10), at(6), at(8), 100);
    assert!(!hit.wall);
    assert_eq!(hit.distance, 370);
    assert_eq!((hit.x, hit.y), (10, 10));
}

#[test]
fn diagonal_ray_hits_corner_wall() {
    let maze = maze_of(&["   ", "   ", "  #"]);
    // (10 + 6k, 10 + 8k) first reaches x >= 200 at k = 32, at y = 266.
    let hit = cast_ray(&maze, at(10), at(10), at(6), at(8), 100);
    assert!(hit.wall);
    assert_eq!(hit.distance, 320);
    assert_eq!((hit.x, hit.y), (202, 266));
}

#[test]
fn boundary_position_resolves_to_cell_that_starts_there() {
    let maze = maze_of(&["   ", "   "]);
    assert_eq!(cell_at(&maze, 100, at(100), at(0)), Some((1, 0)));
    assert_eq!(cell_at(&maze, 100, at(100) - 1, at(0)), Some((0, 0)));
    assert_eq!(cell_at(&maze, 100, at(200), at(100)), Some((2, 1)));
    assert_eq!(cell_at(&maze, 100, at(300), at(100)), None);
    assert_eq!(cell_at(&maze, 100, -1, 0), None);
    assert_eq!(cell_at(&maze, 100, 0, at(200)), None);
}

#[test]
fn maze_check_accepts_rectangular_grids_only() {
    assert!(maze_fits_check(&maze_of(&["###", "# #"]), 100));
    assert!(!maze_fits_check(&maze_of(&["###", "#"]), 100));
    assert!(!maze_fits_check(&Vec::new(), 100));
    assert!(!maze_fits_check(&maze_of(&[""]), 100));
    assert!(!maze_fits_check(&maze_of(&["#"]), 0));
    // 2^48 world units of cells fit; one more does not.
    assert!(maze_fits_check(&maze_of(&["#"]), 1 << 48));
    assert!(!maze_fits_check(&maze_of(&["##"]), 1 << 48));
}
