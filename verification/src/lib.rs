//! The rules of the sliding-tile game 2048 on a grid of four by four cells:
//! moves that slide and merge the tiles, the spawning of new tiles, and the
//! test for the end of the game.
//!
//! `line` and `board` say what a move is, on one line and on the whole grid,
//! as functions on sequences of integers. `laws`, `tally` and `capacity` prove
//! what follows for every move and every grid. `engine`, `detector`, `spawner`
//! and `game` hold the operations on a `GameState`, each with a contract over
//! those functions. The random draws come from the `rand` crate.

pub mod board;
pub mod capacity;
pub mod detector;
pub mod engine;
pub mod game;
pub mod laws;
pub mod line;
mod random;
pub mod spawner;
pub mod tally;

pub use crate::board::{Direction, GRID_SIZE};
pub use crate::game::{Command, GameState};
