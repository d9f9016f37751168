use vstd::prelude::*;

verus! {

/// One of the two sides of the game.
#[derive(Clone, Copy, Debug, PartialEq, Eq, Structural)]
pub enum Player {
    Black,
    White,
}

impl Player {
    /// The opponent mapping as a mathematical function: Black and White
    /// swap places.
    pub open spec fn spec_opponent(self) -> Player {
        match self {
            Player::Black => Player::White,
            Player::White => Player::Black,
        }
    }

    /// Returns the other player.
    pub fn opponent(self) -> (other: Player)
        ensures
            other == self.spec_opponent(),
            other != self,
    {
        match self {
            Player::Black => Player::White,
            Player::White => Player::Black,
        }
    }
}

/// Law: the opponent mapping is involutive; applying it twice gives the
/// original player back, for both values.
pub proof fn lemma_opponent_involutive(p: Player)
    ensures
        p.spec_opponent().spec_opponent() == p,
{
}

} // verus!
