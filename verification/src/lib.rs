//! A small software renderer for a maze game: a pixel framebuffer, the maze
//! grid it is drawn from, textures decoded from image files, and the rules of
//! the game that decide when the cats are caught and which screen is shown.

pub mod framebuffer;
pub mod draw;
pub mod maze;
pub mod texture;
pub mod text;
pub mod enemy;
pub mod game;
