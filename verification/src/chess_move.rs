use vstd::prelude::*;

use crate::graph_boards::graph_board::TileIndex;
use crate::piece_set::PieceType;

verus! {

/// A pawn's double step: the tile it left, the tile it passed over (where it
/// can be captured en passant) and the tile it now stands on.
#[derive(Debug, PartialEq, Eq, Clone, Copy, Structural)]
pub struct EnPassantData {
    pub source_tile: TileIndex,
    pub passed_tile: TileIndex,
    pub occupied_tile: TileIndex,
}

impl EnPassantData {
    pub fn new(source_tile: TileIndex, passed_tile: TileIndex, occupied_tile: TileIndex) -> (r: Self)
        ensures
            r == (EnPassantData { source_tile, passed_tile, occupied_tile }),
    {
        Self { source_tile, passed_tile, occupied_tile }
    }
}

#[derive(Debug, PartialEq, Eq, Clone, Copy, Structural)]
pub struct Move {
    pub source_tile: TileIndex,
    pub destination_tile: TileIndex,
    pub promotion: Option<PieceType>,
    pub en_passant_data: Option<EnPassantData>,
}

impl Move {
    /// A move; when `en_passant_tile` is given the move is a double step that
    /// passes over that tile.
    pub fn new(
        source_tile: TileIndex,
        destination_tile: TileIndex,
        promotion: Option<PieceType>,
        en_passant_tile: Option<TileIndex>,
    ) -> (r: Self)
        ensures
            r.source_tile == source_tile,
            r.destination_tile == destination_tile,
            r.promotion == promotion,
            r.en_passant_data == match en_passant_tile {
                Some(tile) => Some(
                    EnPassantData {
                        source_tile,
                        passed_tile: tile,
                        occupied_tile: destination_tile,
                    },
                ),
                None => None,
            },
    {
        let en_passant_data = match en_passant_tile {
            Some(tile) => Some(EnPassantData::new(source_tile, tile, destination_tile)),
            None => None,
        };
        Self { source_tile, destination_tile, promotion, en_passant_data }
    }

    pub fn from_input(
        source_tile: TileIndex,
        destination_tile: TileIndex,
        promotion: Option<PieceType>,
        en_passant_data: Option<EnPassantData>,
    ) -> (r: Self)
        ensures
            r == (Move { source_tile, destination_tile, promotion, en_passant_data }),
    {
        Self { source_tile, destination_tile, promotion, en_passant_data }
    }
}

} // verus!
