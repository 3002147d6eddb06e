use vstd::prelude::*;

verus! {

/// The largest number of tiles a board can have: one per bit of a `BitBoard`.
pub const MAX_NUM_TILES: usize = 128;

/// King, queen, rook, bishop, knight and pawn.
pub const NUM_PIECE_TYPES: usize = 6;

/// White and black.
pub const NUM_PLAYERS: usize = 2;

} // verus!
