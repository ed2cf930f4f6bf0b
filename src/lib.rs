//! A first-person raycasting renderer over a grid maze, in integer and
//! fixed-point arithmetic: ray marching, wall-slice projection, texture
//! sampling and a flat framebuffer to draw into.

pub mod caster;
pub mod font;
pub mod framebuffer;
pub mod maze;
pub mod minimap;
pub mod player;
pub mod render;
pub mod texture;

