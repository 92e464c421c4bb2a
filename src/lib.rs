//! A sliding-tile merge puzzle on a 4x4 grid: the tile type, the line
//! collapse that slides and merges one row or column, the four moves built
//! on it, tile spawning and the game-over test.

pub mod arrows;
pub mod game;
pub mod laws;
pub mod render;

pub use arrows::ArrowDecoder;
pub use game::{Direction, Table, Tile};
