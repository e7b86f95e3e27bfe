use vstd::prelude::*;

verus! {

/// The two sides of a game.
#[derive(Debug, Copy, Clone, PartialEq, Eq, Structural)]
pub enum ChessPlayer {
    White,
    Black,
}

impl ChessPlayer {
    /// The spec-level opponent; `get_opponent` returns exactly this.
    pub open spec fn opponent(self) -> ChessPlayer {
        match self {
            ChessPlayer::White => ChessPlayer::Black,
            ChessPlayer::Black => ChessPlayer::White,
        }
    }

    /// The other side. Applying it twice gives the side back: an involution.
    pub fn get_opponent(&self) -> (r: ChessPlayer)
        ensures
            r == self.opponent(),
    {
        match self {
            ChessPlayer::White => ChessPlayer::Black,
            ChessPlayer::Black => ChessPlayer::White,
        }
    }
}

/// Taking the opponent twice gives the side back.
pub proof fn lemma_opponent_involution(p: ChessPlayer)
    ensures
        p.opponent().opponent() == p,
{
}

} // verus!
