//! Game rules of a multi-snake arena: grid geometry, snake movement,
//! collision resolution between snakes, fruit handling, the integer parts of
//! the bots' steering, and the screens and keys of a playing session.

pub mod types;
pub mod outside;
pub mod game;
pub mod collisions;
pub mod overlaps;
pub mod world;
pub mod ai;
pub mod laws;
pub mod tick;
pub mod standings;
pub mod board;
pub mod session;
pub mod audio;
