use graph_chess::bit_board::{BitBoard, BitBoardMoves, BitBoardTiles, CarryRippler};
use graph_chess::chess_move::{EnPassantData, Move};
use graph_chess::graph_boards::graph_board::TileIndex;
use graph_chess::piece_set::PieceType;

#[test]
fn test_generate() {
    assert_eq!(
        BitBoard::from_tile_indices(vec![TileIndex::new(0), TileIndex::new(25)]),
        BitBoard(33554433)
    )
}

#[test]
fn test_get_bit_at_tile() {
    assert_eq!(BitBoard(33554433).get_bit_at_tile(&TileIndex::new(25)), true)
}

#[test]
fn test_flip_bit_at_tile() {
    let mut bitboard = BitBoard::empty();
    bitboard.flip_bit_at_tile_index(TileIndex::new(0));
    assert_eq!(bitboard, BitBoard::new(1))
}

#[test]
fn test_is_zero() {
    assert_eq!(BitBoard::empty().is_zero(), true);
    assert_eq!(BitBoard::new(1).is_zero(), false)
}

#[test]
fn test_lowest_one() {
    let bitboard = BitBoard::new(24);
    assert_eq!(bitboard.lowest_one(), Some(TileIndex::new(3)));
    assert_eq!(BitBoard::empty().lowest_one(), None)
}

#[test]
fn test_bitboard_not() {
    assert_eq!(
        !BitBoard::empty(),
        BitBoard(340282366920938463463374607431768211455) // 2 ** 128 - 1
    )
}

#[test]
fn test_carry_ripple() {
    let mut test = CarryRippler::new(BitBoard(3));
    assert_eq!(test.next().unwrap(), BitBoard(1));
    assert_eq!(test.next().unwrap(), BitBoard(2));
    assert_eq!(test.next().unwrap(), BitBoard(3));
    assert_eq!(test.next(), None)
}

#[test]
fn test_bitboard_tiles() {
    let bitboard = BitBoard::from_ints(vec![1, 3, 4]);
    let mut bitboard_tiles = BitBoardTiles::new(bitboard);
    assert_eq!(bitboard_tiles.next().unwrap(), TileIndex::new(1));
    assert_eq!(bitboard_tiles.next().unwrap(), TileIndex::new(3));
    assert_eq!(bitboard_tiles.next().unwrap(), TileIndex::new(4));
    assert_eq!(bitboard_tiles.next(), None);
}

#[test]
fn test_bitboard_tiles_empty() {
    assert_eq!(BitBoardTiles::new(BitBoard::empty()).next(), None)
}

#[test]
fn test_bitboard_moves_knight() {
    let source_tile = TileIndex::new(0);
    let remaining_moves = BitBoard::from_ints(vec![10, 17]);
    let mut bitboard_moves = BitBoardMoves::new(source_tile, false, remaining_moves, None, BitBoard::empty());
    assert_eq!(bitboard_moves.next().unwrap(), Move::new(source_tile, TileIndex::new(10), None, None));
    assert_eq!(bitboard_moves.next().unwrap(), Move::new(source_tile, TileIndex::new(17), None, None));
    assert_eq!(bitboard_moves.next(), None);
}

#[test]
fn test_bitboard_moves_rook() {
    let source_tile = TileIndex::new(63);
    let remaining_moves = BitBoard::from_ints(vec![60, 61, 62]);
    let mut bitboard_moves = BitBoardMoves::new(source_tile, false, remaining_moves, None, BitBoard::empty());
    assert_eq!(bitboard_moves.next().unwrap(), Move::new(source_tile, TileIndex::new(60), None, None));
    assert_eq!(bitboard_moves.next().unwrap(), Move::new(source_tile, TileIndex::new(61), None, None));
    assert_eq!(bitboard_moves.next().unwrap(), Move::new(source_tile, TileIndex::new(62), None, None));
    assert_eq!(bitboard_moves.next(), None);
}

#[test]
fn test_bitboard_moves_pawn_no_promotion() {
    let source_tile = TileIndex::new(8);
    let remaining_moves = BitBoard::from_ints(vec![16, 17, 24]);
    let en_passant_data = Some(EnPassantData {
        source_tile: TileIndex::new(8),
        passed_tile: TileIndex::new(16),
        occupied_tile: TileIndex::new(24),
    });
    let mut bitboard_moves = BitBoardMoves::new(source_tile, true, remaining_moves, en_passant_data, BitBoard::empty());
    assert_eq!(bitboard_moves.next().unwrap(), Move::new(source_tile, TileIndex::new(16), None, None));
    assert_eq!(bitboard_moves.next().unwrap(), Move::new(source_tile, TileIndex::new(17), None, None));
    assert_eq!(
        bitboard_moves.next().unwrap(),
        Move::new(source_tile, TileIndex::new(24), None, Some(TileIndex::new(16)))
    );
    assert_eq!(bitboard_moves.next(), None);
}

#[test]
fn test_bitboard_moves_pawn_with_promotion() {
    let source_tile = TileIndex::new(48);
    let remaining_moves = BitBoard::from_ints(vec![56, 57]);
    let mut bitboard_moves = BitBoardMoves::new(
        source_tile,
        true,
        remaining_moves,
        None,
        BitBoard::from_ints(vec![56, 57]),
    );
    assert_eq!(
        bitboard_moves.next().unwrap(),
        Move::new(source_tile, TileIndex::new(56), Some(PieceType::Knight), None)
    );
    assert_eq!(
        bitboard_moves.next().unwrap(),
        Move::new(source_tile, TileIndex::new(56), Some(PieceType::Bishop), None)
    );
    assert_eq!(
        bitboard_moves.next().unwrap(),
        Move::new(source_tile, TileIndex::new(56), Some(PieceType::Rook), None)
    );
    assert_eq!(
        bitboard_moves.next().unwrap(),
        Move::new(source_tile, TileIndex::new(56), Some(PieceType::Queen), None)
    );
    assert_eq!(
        bitboard_moves.next().unwrap(),
        Move::new(source_tile, TileIndex::new(57), Some(PieceType::Knight), None)
    );
}

#[test]
fn bit_board_operators_are_set_operations() {
    let a = BitBoard::from_ints(vec![1, 2, 3]);
    let b = BitBoard::from_ints(vec![2, 3, 4]);
    assert_eq!(a | b, BitBoard::from_ints(vec![1, 2, 3, 4]));
    assert_eq!(a & b, BitBoard::from_ints(vec![2, 3]));
    assert_eq!(a - b, BitBoard(u128::MAX - 15));
    assert_eq!(BitBoard::from_tile_indices(vec![TileIndex::new(3), TileIndex::new(3)]), BitBoard::new(8));
}

#[test]
fn carry_ripple_hands_out_every_subset_once() {
    let mask = BitBoard::from_ints(vec![0, 5, 9]);
    let mut rippler = CarryRippler::new(mask);
    let mut seen = Vec::new();
    while let Some(subset) = rippler.next() {
        assert_eq!(subset.0 & !mask.0, 0);
        seen.push(subset.0);
    }
    assert_eq!(seen, vec![1, 32, 33, 512, 513, 544, 545]);
    assert_eq!(rippler.next(), None);
}

#[test]
fn lowest_one_of_the_top_tile() {
    assert_eq!(BitBoard::new(1u128 << 127).lowest_one(), Some(TileIndex::new(127)));
}

#[test]
fn carry_rippler_hands_out_every_subset_once_in_order() {
    let mut rippler = CarryRippler::new(BitBoard(0b1011));
    let mut seen = vec![];
    while let Some(subset) = rippler.next() {
        seen.push(subset.0);
    }
    assert_eq!(seen, vec![0b1, 0b10, 0b11, 0b1000, 0b1001, 0b1010, 0b1011]);
    assert_eq!(rippler.next(), None);
}

#[test]
fn board_tiles_come_lowest_first_each_once() {
    let mut tiles = BitBoardTiles::new(BitBoard::from_ints(vec![100, 5, 1]));
    assert_eq!(tiles.next(), Some(TileIndex::new(1)));
    assert_eq!(tiles.next(), Some(TileIndex::new(5)));
    assert_eq!(tiles.next(), Some(TileIndex::new(100)));
    assert_eq!(tiles.next(), None);
}
