use vstd::prelude::*;

use crate::player::Player;

verus! {

/// The occupancy of one cell: empty, or owned by a player.
#[derive(Clone, Copy, Debug)]
pub struct Piece {
    pub player: Option<Player>,
}

impl Piece {
    pub fn new(player: Player) -> (r: Self)
        ensures
            r.player == Some(player),
    {
        Self { player: Some(player) }
    }

    pub fn empty() -> (r: Self)
        ensures
            r.player is None,
    {
        Self { player: None }
    }
}

} // verus!
