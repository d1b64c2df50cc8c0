//! Polyomino pieces on a rectangular board: a piece is drawn by a bounded
//! random walk, turned by quarter turns, and placed at the first position
//! where it fits.
//!
//! The library draws no random numbers itself. Whoever calls it supplies
//! the draws, so that every function here is a function of its arguments.

pub mod bits;
pub mod board;
pub mod connect;
pub mod error;
pub mod game;
pub mod grid;
pub mod shape;
pub mod shape_walk;
pub mod tetromino;
pub mod text;
pub mod walk;

pub use crate::error::Error;
pub use crate::game::Game;
pub use crate::tetromino::Tetromino;
pub use crate::text::greeting;
pub use crate::shape_walk::ShapeWalk;
pub use crate::walk::DOWN;
pub use crate::walk::LEFT;
pub use crate::walk::MAX;
pub use crate::walk::MIN;
pub use crate::walk::RIGHT;
pub use crate::walk::UP;
