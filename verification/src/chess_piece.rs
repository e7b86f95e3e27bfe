use vstd::prelude::*;

verus! {

/// The six piece kinds, with stable ordinals 0 through 5 in this order.
#[derive(Debug, Copy, Clone, PartialEq, Eq, Structural)]
pub enum ChessPiece {
    Pawn,
    Rook,
    Knight,
    Bishop,
    Queen,
    King,
}

impl ChessPiece {
    /// The stable ordinal of the piece kind.
    pub open spec fn ordinal(self) -> int {
        match self {
            ChessPiece::Pawn => 0,
            ChessPiece::Rook => 1,
            ChessPiece::Knight => 2,
            ChessPiece::Bishop => 3,
            ChessPiece::Queen => 4,
            ChessPiece::King => 5,
        }
    }

    /// The piece kind with the given ordinal.
    pub open spec fn from_ordinal(n: int) -> ChessPiece {
        if n == 0 {
            ChessPiece::Pawn
        } else if n == 1 {
            ChessPiece::Rook
        } else if n == 2 {
            ChessPiece::Knight
        } else if n == 3 {
            ChessPiece::Bishop
        } else if n == 4 {
            ChessPiece::Queen
        } else {
            ChessPiece::King
        }
    }

    /// The ordinal encoding, 0 for a pawn up to 5 for a king.
    pub fn to_index(&self) -> (r: usize)
        ensures
            r == self.ordinal(),
            r < 6,
    {
        match self {
            ChessPiece::Pawn => 0,
            ChessPiece::Rook => 1,
            ChessPiece::Knight => 2,
            ChessPiece::Bishop => 3,
            ChessPiece::Queen => 4,
            ChessPiece::King => 5,
        }
    }

    /// The piece kind for an ordinal below 6.
    pub fn from_index(n: usize) -> (r: ChessPiece)
        requires
            n < 6,
        ensures
            r == ChessPiece::from_ordinal(n as int),
            r.ordinal() == n,
    {
        if n == 0 {
            ChessPiece::Pawn
        } else if n == 1 {
            ChessPiece::Rook
        } else if n == 2 {
            ChessPiece::Knight
        } else if n == 3 {
            ChessPiece::Bishop
        } else if n == 4 {
            ChessPiece::Queen
        } else {
            ChessPiece::King
        }
    }
}

} // verus!
