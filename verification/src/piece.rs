use vstd::prelude::*;

verus! {

/// A kind of chess piece, in increasing order of value.
#[derive(PartialEq, Eq, Ord, PartialOrd, Copy, Clone, Debug, Hash, Structural)]
pub enum Piece {
    Pawn,
    Bishop,
    Knight,
    Rook,
    Queen,
    King,
}

impl Piece {
    /// The position of the kind in the order of the variants.
    pub fn to_index(&self) -> (r: usize)
        ensures
            r == match self {
                Piece::Pawn => 0usize,
                Piece::Bishop => 1usize,
                Piece::Knight => 2usize,
                Piece::Rook => 3usize,
                Piece::Queen => 4usize,
                Piece::King => 5usize,
            },
    {
        match self {
            Piece::Pawn => 0,
            Piece::Bishop => 1,
            Piece::Knight => 2,
            Piece::Rook => 3,
            Piece::Queen => 4,
            Piece::King => 5,
        }
    }
}

} // verus!
