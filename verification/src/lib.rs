//! Tic-tac-toe generalized to any number of dimensions: an n-dimensional
//! board of side `n + 1`, won by `n + 1` pieces of one player along a
//! straight, unbroken line.  The board is a recursive container, win
//! detection searches combinations of a player's pieces over the flattened
//! board, and every function carries a contract tying it to that model.

pub mod board;
pub mod coords;
pub mod game;
pub mod piece;
pub mod player;
pub mod win;

pub use board::Board;
pub use board::Idx;
pub use coords::map_player_input;
pub use game::Game;
pub use piece::Piece;
pub use player::Player;

use vstd::prelude::*;

verus! {

/// Why a placement request was rejected.
#[derive(Debug, PartialEq, Eq, Structural)]
pub enum PlacePieceError {
    OutOfBounds,
    Occupied,
}

} // verus!
