use graph_chess::bit_board::BitBoard;
use graph_chess::chess_move::{EnPassantData, Move};
use graph_chess::graph_boards::graph_board::TileIndex;
use graph_chess::graph_boards::traditional_board::TraditionalBoardGraph;
use graph_chess::move_generator::MoveTables;
use graph_chess::piece_set::{Color, Piece, PieceType};
use graph_chess::position::{GameOver, Position, PositionRecord};

fn test_move_tables() -> MoveTables {
    let board = TraditionalBoardGraph::new();
    board.0.move_tables()
}

#[test]
fn test_new_traditional_occupied() {
    let position = Position::new_traditional();
    let occupied = position.pieces[0].occupied | position.pieces[1].occupied;
    assert_eq!(
        occupied,
        BitBoard::from_ints(vec![
            0, 1, 2, 3, 4, 5, 6, 7, 8, 9, 10, 11, 12, 13, 14, 15, 48, 49, 50, 51, 52, 53, 54, 55, 56, 57, 58, 59, 60,
            61, 62, 63
        ])
    )
}

#[test]
fn test_new_hexagonal_occupied() {
    let position: Position = Position::new_hexagonal();
    let occupied = position.pieces[0].occupied | position.pieces[1].occupied;
    assert_eq!(
        occupied,
        BitBoard::from_ints(vec![
            0, 1, 2, 3, 4, 6, 7, 10, 13, 15, 17, 21, 25, 30, 31, 32, 33, 34, 56, 57, 58, 59, 60, 65, 69, 73, 75, 77,
            80, 83, 84, 86, 87, 88, 89, 90
        ])
    )
}

#[test]
fn test_make_legal_move() {
    let mut position = Position::new_traditional();
    let source_tile = TileIndex::new(1);
    let destination_tile = TileIndex::new(18);
    let legal_move = Move::new(source_tile, destination_tile, None, None);
    position.make_legal_move(&legal_move);
    assert_eq!(position.pieces[0].piece_boards[PieceType::Knight.as_idx()], BitBoard::from_ints(vec![6, 18]));
}

#[test]
fn test_en_passant_move() {
    let mut position = Position::new_traditional();
    let destination_tile = TileIndex::new(24);
    let legal_move = Move::new(TileIndex::new(8), destination_tile, None, Some(TileIndex::new(16)));
    position.make_legal_move(&legal_move);
    assert_eq!(
        *position.record.en_passant_data.as_ref().unwrap(),
        EnPassantData::new(TileIndex::new(8), TileIndex::new(16), destination_tile)
    )
}

#[test]
fn test_en_passant_capture() {
    let mut position = Position::new_traditional();
    let en_passant_tile = TileIndex::new(16);
    let captured_tile = TileIndex::new(24);
    let first_move = Move::new(TileIndex::new(8), captured_tile, None, Some(en_passant_tile));
    position.make_legal_move(&first_move);
    let capturing_move = Move::new(TileIndex::new(48), en_passant_tile, None, None);
    position.make_legal_move(&capturing_move);
    assert_eq!(
        position.pieces[0].piece_boards[PieceType::Pawn.as_idx()].get_bit_at_tile(&TileIndex::new(24)),
        false
    );
    assert_eq!(
        position.pieces[1].piece_boards[PieceType::Pawn.as_idx()].get_bit_at_tile(&TileIndex::new(16)),
        true
    )
}

#[test]
fn test_sequential_moves() {
    let mut position = Position::new_traditional();
    let first_move = Move::new(TileIndex::new(12), TileIndex::new(28), None, Some(TileIndex::new(20)));
    let second_move = Move::new(TileIndex::new(51), TileIndex::new(35), None, Some(TileIndex::new(43)));
    let third_move = Move::new(TileIndex::new(28), TileIndex::new(35), None, None);
    position.make_legal_move(&first_move);
    position.make_legal_move(&second_move);
    assert_eq!(
        *position.record.en_passant_data.as_ref().unwrap(),
        EnPassantData {
            source_tile: TileIndex::new(51),
            passed_tile: TileIndex::new(43),
            occupied_tile: TileIndex::new(35)
        }
    );
    position.make_legal_move(&third_move);
    assert_eq!(position.pieces[0].occupied, BitBoard::new(2_u128.pow(16) - 1 - 2_u128.pow(12) + 2_u128.pow(35)));
    assert_eq!(position.pieces[1].occupied, BitBoard::new(2_u128.pow(64) - 2_u128.pow(48) - 2_u128.pow(51)))
}

#[test]
fn test_unmake_legal_move() {
    let mut position = Position::from_string("RNBQKBNRPPPPPPP16P16pppppppprnbqkbnr w 15,23,31".to_string());

    let source_tile = TileIndex::new(1);
    let destination_tile = TileIndex::new(18);
    let legal_move = Move::new(source_tile, destination_tile, None, None);
    position.make_legal_move(&legal_move);
    position.unmake_legal_move(&legal_move);
    assert_eq!(position.pieces[0].piece_boards[PieceType::Knight.as_idx()], BitBoard::from_ints(vec![1, 6]));
    assert_eq!(
        position.record.en_passant_data,
        Some(EnPassantData {
            source_tile: TileIndex::new(15),
            passed_tile: TileIndex::new(23),
            occupied_tile: TileIndex::new(31)
        })
    );

    let source_tile = TileIndex::new(8);
    let destination_tile = TileIndex::new(16);
    let demotion_move = Move::new(source_tile, destination_tile, Some(PieceType::Knight), None);
    position.make_legal_move(&demotion_move);
    position.unmake_legal_move(&demotion_move);
    assert_eq!(position.pieces[0].piece_boards[PieceType::Knight.as_idx()], BitBoard::from_ints(vec![1, 6]));
    assert_eq!(
        position.pieces[0].piece_boards[PieceType::Pawn.as_idx()],
        BitBoard::from_ints(vec![8, 9, 10, 11, 12, 13, 14, 31])
    );

    let source_tile = TileIndex::new(0);
    let destination_tile = TileIndex::new(56);
    let capture_move = Move::new(source_tile, destination_tile, None, None);
    position.make_legal_move(&capture_move);
    assert_eq!(position.record.captured_piece, Some(PieceType::Rook));
    position.unmake_legal_move(&capture_move);
    assert_eq!(position.pieces[0].piece_boards[PieceType::Rook.as_idx()], BitBoard::from_ints(vec![0, 7]));
    assert_eq!(position.pieces[1].piece_boards[PieceType::Rook.as_idx()], BitBoard::from_ints(vec![56, 63]));
}

#[test]
fn test_string_conversion() {
    let position = Position::new_traditional();
    assert_eq!(position.to_string(), "RNBQKBNRPPPPPPPP32pppppppprnbqkbnr w -".to_string())
}

#[test]
fn position_test_is_in_check() {
    let mut position = Position::new_traditional();
    let move_tables = test_move_tables();
    assert_eq!(position.is_in_check(&move_tables, &Color::White), false); // Initial position, not in check for white
    assert_eq!(position.is_in_check(&move_tables, &Color::Black), false); // Initial position, not in check for black
    position.make_legal_move(&Move::new(TileIndex::new(1), TileIndex::new(43), None, None));
    assert_eq!(position.is_in_check(&move_tables, &Color::Black), true); // Black in check by Knight
    position.make_legal_move(&Move::new(TileIndex::new(59), TileIndex::new(20), None, None));
    assert_eq!(position.is_in_check(&move_tables, &Color::White), false); // White not in check by blocked orthogonal queen
    position.make_legal_move(&Move::new(TileIndex::new(12), TileIndex::new(28), None, None));
    assert_eq!(position.is_in_check(&move_tables, &Color::White), true); // White in check by unblocked orthogonal queen
    position.make_legal_move(&Move::new(TileIndex::new(20), TileIndex::new(18), None, None));
    assert_eq!(position.is_in_check(&move_tables, &Color::White), false); // White not in check by blocked diagonal queen
    position.make_legal_move(&Move::new(TileIndex::new(11), TileIndex::new(19), None, None));
    assert_eq!(position.is_in_check(&move_tables, &Color::White), true); // White in check by unblocked diagonal queen
}

#[test]
fn test_zobrist_repeat_position() {
    let mut position = Position::new_traditional();
    let init_hash = position.get_zobrist();

    let move_1 = Move::new(TileIndex::new(1), TileIndex::new(18), None, None);
    let move_2 = Move::new(TileIndex::new(62), TileIndex::new(53), None, None);
    let move_3 = Move::new(TileIndex::new(18), TileIndex::new(1), None, None);
    let move_4 = Move::new(TileIndex::new(53), TileIndex::new(62), None, None);
    position.make_legal_move(&move_1);
    position.make_legal_move(&move_2);
    position.make_legal_move(&move_3);
    position.make_legal_move(&move_4);
    assert_eq!(init_hash, position.get_zobrist())
}

#[test]
fn string_conversion_with_en_passant_and_black_to_move() {
    let mut position = Position::new_traditional();
    position.make_legal_move(&Move::new(TileIndex::new(12), TileIndex::new(28), None, Some(TileIndex::new(20))));
    assert_eq!(position.to_string(), "RNBQKBNRPPPP1PPP12P19pppppppprnbqkbnr b 20,28".to_string());
    assert_eq!(
        Position::new_triangular().to_string(),
        "RKNP2pnkrQBP3pbqNP4pnP5p w -".to_string()
    );
}

#[test]
fn string_round_trip_of_the_starting_positions() {
    for fen in [
        "RNBQKBNRPPPPPPPP32pppppppprnbqkbnr w -",
        "BKNRP1QB2P2N1B1P3R3P4PPPPP21ppppp4p3r3p1b1n2p2bq1prnkb w -",
    ] {
        let position = Position::from_string(fen.to_string());
        assert_eq!(position.to_string(), fen.to_string());
    }
}

#[test]
fn make_then_unmake_restores_the_position() {
    let mut position = Position::new_traditional();
    let before = position.to_string();
    let before_record = position.record;
    let double_step = Move::new(TileIndex::new(11), TileIndex::new(27), None, Some(TileIndex::new(19)));
    position.make_legal_move(&double_step);
    assert_eq!(position.active_player, Color::Black);
    assert_eq!(position.history.len(), 1);
    position.unmake_legal_move(&double_step);
    assert_eq!(position.to_string(), before);
    assert_eq!(position.record, before_record);
    assert_eq!(position.active_player, Color::White);
    assert_eq!(position.history.len(), 0);
}

#[test]
fn occupants_and_records() {
    let position = Position::new_traditional();
    assert_eq!(
        position.get_occupant(&TileIndex::new(4)),
        Some(Piece { piece: PieceType::King, color: Color::White })
    );
    assert_eq!(
        position.get_occupant(&TileIndex::new(59)),
        Some(Piece { piece: PieceType::Queen, color: Color::Black })
    );
    assert_eq!(position.get_occupant(&TileIndex::new(30)), None);
    assert_eq!(position.fifty_move_draw(), false);
    assert_eq!(position.get_previous_record(), None);
    let record = PositionRecord::from_string("1,2,3".to_string());
    assert_eq!(
        record.en_passant_data,
        Some(EnPassantData::new(TileIndex::new(1), TileIndex::new(2), TileIndex::new(3)))
    );
    assert_eq!(PositionRecord::default(7).zobrist, 7);
    assert_eq!(GameOver::Checkmate.display(Color::Black), "Black wins!".to_string());
    assert_eq!(GameOver::Draw.display(Color::White), "Draw!".to_string());
}

#[test]
fn fifty_moves_without_progress_draw() {
    let mut position = Position::new_traditional();
    let knight_out = Move::new(TileIndex::new(1), TileIndex::new(18), None, None);
    let knight_back = Move::new(TileIndex::new(18), TileIndex::new(1), None, None);
    let black_out = Move::new(TileIndex::new(62), TileIndex::new(45), None, None);
    let black_back = Move::new(TileIndex::new(45), TileIndex::new(62), None, None);
    for _ in 0..12 {
        position.make_legal_move(&knight_out);
        position.make_legal_move(&black_out);
        position.make_legal_move(&knight_back);
        position.make_legal_move(&black_back);
    }
    assert_eq!(position.record.fifty_move_counter, 48);
    assert_eq!(position.fifty_move_draw(), false);
    position.make_legal_move(&knight_out);
    position.make_legal_move(&black_out);
    assert_eq!(position.fifty_move_draw(), true);
}

#[test]
fn hash_changes_with_the_side_to_move() {
    let mut position = Position::new_traditional();
    let start = position.get_zobrist();
    position.make_legal_move(&Move::new(TileIndex::new(1), TileIndex::new(18), None, None));
    assert_ne!(position.get_zobrist(), start);
}

#[test]
fn reading_back_a_written_position_keeps_pieces_and_player() {
    let mut position = Position::new_traditional();
    let knight_move = Move::new(TileIndex::new(6), TileIndex::new(21), None, None);
    position.make_legal_move(&knight_move);
    let written = position.to_string();
    let read_back = Position::from_string(written.clone());
    assert_eq!(read_back.active_player, Color::Black);
    assert_eq!(read_back.pieces[0].piece_boards, position.pieces[0].piece_boards);
    assert_eq!(read_back.pieces[1].piece_boards, position.pieces[1].piece_boards);
    assert_eq!(read_back.to_string(), written);
}

// The record's hash is not the hash of the position computed from scratch
// (`get_zobrist`): a position read from a string starts its record's hash at
// 0, and making a move XORs the moved pawn's two keys into it. So after the
// moves below are taken back and the pawn on tile 8 steps to tile 16, the
// record's hash differs from the starting position's `get_zobrist`. What holds,
// and is checked here, is that taking moves back restores the record with its
// hash, and that the record before a move is kept with its hash.
#[test]
fn zobrist_of_unmade_moves_is_restored() {
    let mut position = Position::new_traditional();
    let move_tables = test_move_tables();
    let initial_record = position.record;
    for move_1 in move_tables.get_legal_moves(&mut position) {
        position.make_legal_move(&move_1);
        for move_2 in move_tables.get_legal_moves(&mut position) {
            position.make_legal_move(&move_2);
            for move_3 in move_tables.get_legal_moves(&mut position) {
                position.make_legal_move(&move_3);
                position.unmake_legal_move(&move_3);
            }
            position.unmake_legal_move(&move_2);
        }
        position.unmake_legal_move(&move_1);
    }
    assert_eq!(position.record, initial_record);
    let first_move = Move::new(TileIndex::new(8), TileIndex::new(16), None, None);
    position.make_legal_move(&first_move);
    assert_eq!(position.history.last().unwrap().zobrist, initial_record.zobrist);
    let keys = &position.zobrist_table;
    assert_eq!(
        position.record.zobrist,
        initial_record.zobrist ^ keys.piece_key(0, 5, 8) ^ keys.piece_key(0, 5, 16)
    );
}
