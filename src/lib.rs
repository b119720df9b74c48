//! A move generator and position model for the board game Hive: a hexagonal cell
//! graph that grows as tiles are placed, the moves of the five base bugs under the
//! one-hive and freedom-to-move rules, reversible moves, and an incremental hash.

use vstd::prelude::*;

pub mod hex;
pub mod zobrist;
pub mod board;
pub mod movegen;
pub mod game;
pub mod display;

pub use board::{Board, Bug, Color, Id, Move, Tile, UNASSIGNED};
pub use game::{BasicEvaluator, DumbEvaluator, Game, Winner};
pub use hex::{adjacent, Loc};
pub use movegen::NodeSet;

verus! {

} // verus!
