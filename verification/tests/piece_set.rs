use graph_chess::bit_board::BitBoard;
use graph_chess::graph_boards::graph_board::TileIndex;
use graph_chess::piece_set::{Color, Piece, PieceSet, PieceType};
use graph_chess::position::Position;

#[test]
fn test_get_piece_at_tile() {
    let piece_set = &Position::new_traditional().pieces[0];
    assert_eq!(piece_set.get_piece_at(&TileIndex::new(0)).unwrap(), PieceType::Rook);
    assert_eq!(piece_set.get_piece_at(&TileIndex::new(17)), None)
}

#[test]
fn test_get_bitboard_for_piece() {
    let piece_set = &mut Position::new_traditional().pieces[0];
    assert_eq!(*piece_set.get_bitboard_for_piece(&PieceType::King), BitBoard::new(16))
}

#[test]
fn test_move_piece() {
    let piece_set = &mut Position::new_traditional().pieces[0];
    let source_tile = TileIndex::new(1);
    let destination_tile = TileIndex::new(18);
    piece_set.move_piece(source_tile, destination_tile);
    assert_eq!(piece_set.piece_boards[PieceType::Knight.as_idx()], BitBoard::from_ints(vec![6, 18]));
}

#[test]
fn test_capture_piece() {
    let piece_set = &mut Position::new_traditional().pieces[0];
    let capture_tile = TileIndex::new(0);
    piece_set.capture_piece(capture_tile);
    assert_eq!(piece_set.piece_boards[PieceType::Rook.as_idx()], BitBoard::from_ints(vec![7]))
}

#[test]
fn test_promote_piece() {
    let piece_set = &mut Position::new_traditional().pieces[0];
    let promotion_tile = TileIndex::new(8);
    piece_set.promote_piece(promotion_tile, &PieceType::Queen);
    assert_eq!(piece_set.piece_boards[PieceType::Pawn.as_idx()], BitBoard::from_ints(vec![9, 10, 11, 12, 13, 14, 15]));
    assert_eq!(piece_set.piece_boards[PieceType::Queen.as_idx()], BitBoard::from_ints(vec![3, 8]))
}

#[test]
fn test_return_piece() {
    let piece_set = &mut Position::new_traditional().pieces[0];
    let captured_tile = TileIndex::new(16);
    piece_set.return_piece(captured_tile, &PieceType::Rook);
    assert_eq!(piece_set.piece_boards[PieceType::Rook.as_idx()], BitBoard::from_ints(vec![0, 7, 16]))
}

#[test]
fn test_demote_piece() {
    let piece_set = &mut Position::new_traditional().pieces[0];
    let demotion_tile = TileIndex::new(0);
    piece_set.demote_piece(demotion_tile);
    assert_eq!(piece_set.piece_boards[PieceType::Rook.as_idx()], BitBoard::from_ints(vec![7]));
    assert_eq!(
        piece_set.piece_boards[PieceType::Pawn.as_idx()],
        BitBoard::from_ints(vec![0, 8, 9, 10, 11, 12, 13, 14, 15])
    )
}

#[test]
fn test_update_occupied() {
    let piece_set = &mut Position::new_traditional().pieces[0];
    piece_set.capture_piece(TileIndex::new(0));
    piece_set.update_occupied();
    assert_eq!(
        piece_set.occupied,
        BitBoard::new(65534) // 2 ** 16 - 2
    )
}

#[test]
fn piece_type_conversions() {
    for idx in 0..6 {
        assert_eq!(PieceType::from_idx(idx).as_idx(), idx);
    }
    assert_eq!(PieceType::from_idx(9), PieceType::Pawn);
    assert_eq!(PieceType::from_char('q'), PieceType::Queen);
    assert_eq!(PieceType::from_char('N'), PieceType::Knight);
    assert_eq!(PieceType::from_char('x'), PieceType::Pawn);
    assert_eq!(PieceType::King.as_char(), '♔');
    assert_eq!(PieceType::Pawn.as_colored_char(Color::Black), '♙');
    assert_eq!(Piece { piece: PieceType::Bishop, color: Color::Black }.display(), 'b');
    assert_eq!(Piece { piece: PieceType::Bishop, color: Color::White }.display(), 'B');
    assert_eq!(Color::White.opponent(), Color::Black);
    assert_eq!(Color::Black.as_idx(), 1);
}

#[test]
fn capture_then_return_restores_the_boards() {
    let before = Position::new_traditional().pieces[1];
    let mut piece_set = before;
    piece_set.capture_piece(TileIndex::new(60));
    piece_set.return_piece(TileIndex::new(60), &PieceType::King);
    assert_eq!(piece_set.piece_boards, before.piece_boards);
}

#[test]
fn promote_then_demote_restores_the_boards() {
    let before: PieceSet = Position::new_traditional().pieces[0];
    let mut piece_set = before;
    piece_set.promote_piece(TileIndex::new(8), &PieceType::Rook);
    piece_set.demote_piece(TileIndex::new(8));
    assert_eq!(piece_set.piece_boards, before.piece_boards);
}

#[test]
fn empty_piece_set() {
    let piece_set = PieceSet::empty();
    assert_eq!(piece_set.occupied, BitBoard::empty());
    assert_eq!(piece_set.get_piece_at(&TileIndex::new(0)), None);
}
