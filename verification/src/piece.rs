//! Pieces, sides and material weights.

use vstd::prelude::*;

verus! {

/// The two players.
#[derive(Clone, Copy, Debug, PartialEq, Eq, Structural)]
pub enum Side {
    White,
    Black,
}

/// What a square holds: nothing, or a piece of one kind and one side.
#[derive(Clone, Copy, Debug, PartialEq, Eq, Structural)]
pub enum Piece {
    Empty,
    WP,
    BP,
    WN,
    BN,
    WR,
    BR,
    WQ,
    BQ,
    WK,
    BK,
}

impl Piece {
    /// The side that owns the piece; `None` for an empty square.
    pub open spec fn side_of(self) -> Option<Side> {
        match self {
            Piece::Empty => None,
            Piece::WP | Piece::WN | Piece::WR | Piece::WQ | Piece::WK => Some(Side::White),
            Piece::BP | Piece::BN | Piece::BR | Piece::BQ | Piece::BK => Some(Side::Black),
        }
    }

    /// Material weight from White's point of view: positive for White,
    /// negative for Black, zero for an empty square.
    pub open spec fn weight_of(self) -> int {
        match self {
            Piece::Empty => 0,
            Piece::WP => 100,
            Piece::WN => 300,
            Piece::WR => 500,
            Piece::WQ => 900,
            Piece::WK => 10000,
            Piece::BP => -100,
            Piece::BN => -300,
            Piece::BR => -500,
            Piece::BQ => -900,
            Piece::BK => -10000,
        }
    }

    /// The same kind of piece on the other side.
    pub open spec fn mirrored(self) -> Piece {
        match self {
            Piece::Empty => Piece::Empty,
            Piece::WP => Piece::BP,
            Piece::WN => Piece::BN,
            Piece::WR => Piece::BR,
            Piece::WQ => Piece::BQ,
            Piece::WK => Piece::BK,
            Piece::BP => Piece::WP,
            Piece::BN => Piece::WN,
            Piece::BR => Piece::WR,
            Piece::BQ => Piece::WQ,
            Piece::BK => Piece::WK,
        }
    }

    /// Both squares are occupied, by pieces of different sides.
    pub open spec fn opposes(self, other: Piece) -> bool {
        self.side_of() is Some && other.side_of() is Some && self.side_of() != other.side_of()
    }

    /// Both squares are occupied, by pieces of one side.
    pub open spec fn allied(self, other: Piece) -> bool {
        self.side_of() is Some && self.side_of() == other.side_of()
    }

    /// The side that owns the piece, if any.
    pub fn side(self) -> (s: Option<Side>)
        ensures
            s == self.side_of(),
    {
        match self {
            Piece::Empty => None,
            Piece::WP | Piece::WN | Piece::WR | Piece::WQ | Piece::WK => Some(Side::White),
            Piece::BP | Piece::BN | Piece::BR | Piece::BQ | Piece::BK => Some(Side::Black),
        }
    }

    /// The material weight of the piece, negative for Black.
    pub fn weight(self) -> (w: i32)
        ensures
            w == self.weight_of(),
    {
        match self {
            Piece::Empty => 0,
            Piece::WP => 100,
            Piece::WN => 300,
            Piece::WR => 500,
            Piece::WQ => 900,
            Piece::WK => 10000,
            Piece::BP => -100,
            Piece::BN => -300,
            Piece::BR => -500,
            Piece::BQ => -900,
            Piece::BK => -10000,
        }
    }

    /// Whether the two are pieces of different sides. An empty square
    /// opposes nothing.
    pub fn is_opponent_of(self, other: Piece) -> (b: bool)
        ensures
            b == self.opposes(other),
    {
        match (self.side(), other.side()) {
            (Some(Side::White), Some(Side::Black)) => true,
            (Some(Side::Black), Some(Side::White)) => true,
            _ => false,
        }
    }
}

} // verus!
