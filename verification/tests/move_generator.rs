use graph_chess::bit_board::BitBoard;
use graph_chess::chess_move::{EnPassantData, Move};
use graph_chess::graph_boards::graph_board::TileIndex;
use graph_chess::graph_boards::traditional_board::TraditionalBoardGraph;
use graph_chess::move_generator::MoveTables;
use graph_chess::piece_set::Color;
use graph_chess::position::Position;

fn test_move_tables() -> MoveTables {
    let board = TraditionalBoardGraph::new();
    board.0.move_tables()
}

#[test]
fn test_perft_one() {
    let move_tables = test_move_tables();
    let mut count = 0;
    for _chess_move in move_tables.get_pseudo_moves(&mut Position::new_traditional()) {
        count += 1;
    }
    assert_eq!(count, 20)
}

#[test]
fn test_query_pawn_white() {
    let move_tables = test_move_tables();
    let color = &Color::White;
    let source_tile = TileIndex::new(9);
    let enemies = BitBoard::empty();
    let occupied = BitBoard::empty();
    assert_eq!(
        // Double and single
        move_tables.query_pawn(color, source_tile, &enemies, occupied, &None),
        BitBoard::from_ints(vec![17, 25])
    );
    assert_eq!(
        // Attacks, blocked double
        move_tables.query_pawn(color, source_tile, &BitBoard::from_ints(vec![16, 18]), BitBoard::from_ints(vec![25]), &None),
        BitBoard::from_ints(vec![16, 17, 18])
    );
    assert_eq!(
        // Blocked single, occupied attacks by allies
        move_tables.query_pawn(color, source_tile, &BitBoard::from_ints(vec![17]), BitBoard::from_ints(vec![16, 17, 18]), &None),
        BitBoard::empty()
    );
    assert_eq!(
        // Blocked single, occupied
        move_tables.query_pawn(color, source_tile, &BitBoard::empty(), BitBoard::from_ints(vec![17]), &None),
        BitBoard::empty()
    );
    assert_eq!(
        // Single move, no doubles
        move_tables.query_pawn(color, TileIndex::new(17), &enemies, occupied, &None),
        BitBoard::from_ints(vec![25])
    );
    assert_eq!(
        // En Passant Capture
        move_tables.query_pawn(
            color,
            source_tile,
            &enemies,
            occupied,
            &Some(EnPassantData {
                source_tile: TileIndex::new(24),
                passed_tile: TileIndex::new(16),
                occupied_tile: TileIndex::new(8)
            })
        ),
        BitBoard::from_ints(vec![16, 17, 25])
    );
    assert_eq!(
        // Irrelevant En Passant
        move_tables.query_pawn(
            color,
            source_tile,
            &enemies,
            occupied,
            &Some(EnPassantData {
                source_tile: TileIndex::new(27),
                passed_tile: TileIndex::new(19),
                occupied_tile: TileIndex::new(11)
            })
        ),
        BitBoard::from_ints(vec![17, 25])
    )
}

#[test]
fn test_query_pawn_black() {
    let move_tables = test_move_tables();
    let color = &Color::Black;
    let source_tile = TileIndex::new(49);
    let enemies = BitBoard::empty();
    let occupied = BitBoard::empty();
    assert_eq!(
        // Double and single
        move_tables.query_pawn(color, source_tile, &enemies, occupied, &None),
        BitBoard::from_ints(vec![41, 33])
    );
    assert_eq!(
        // Attacks, blocked double
        move_tables.query_pawn(color, source_tile, &BitBoard::from_ints(vec![40, 42]), BitBoard::from_ints(vec![33]), &None),
        BitBoard::from_ints(vec![40, 41, 42])
    );
    assert_eq!(
        // Blocked single, occupied attacks by allies
        move_tables.query_pawn(color, source_tile, &BitBoard::from_ints(vec![41]), BitBoard::from_ints(vec![40, 41, 42]), &None),
        BitBoard::empty()
    );
    assert_eq!(
        // Blocked single, occupied
        move_tables.query_pawn(color, source_tile, &BitBoard::empty(), BitBoard::from_ints(vec![41]), &None),
        BitBoard::empty()
    );
    assert_eq!(move_tables.query_pawn(color, TileIndex::new(41), &enemies, occupied, &None), BitBoard::from_ints(vec![33]));
    assert_eq!(
        // En Passant Capture
        move_tables.query_pawn(
            color,
            source_tile,
            &enemies,
            occupied,
            &Some(EnPassantData {
                source_tile: TileIndex::new(32),
                passed_tile: TileIndex::new(40),
                occupied_tile: TileIndex::new(48)
            })
        ),
        BitBoard::from_ints(vec![40, 41, 33])
    );
    assert_eq!(
        // Irrelevant En Passant
        move_tables.query_pawn(
            color,
            source_tile,
            &enemies,
            occupied,
            &Some(EnPassantData {
                source_tile: TileIndex::new(35),
                passed_tile: TileIndex::new(43),
                occupied_tile: TileIndex::new(51)
            })
        ),
        BitBoard::from_ints(vec![41, 33])
    )
}

#[test]
fn move_generator_test_is_in_check() {
    let mut position = Position::new_traditional();
    let move_tables = test_move_tables();
    assert_eq!(position.is_in_check(&move_tables, &Color::White), false); // Initial position, not in check for white
    assert_eq!(position.is_in_check(&move_tables, &Color::Black), false); // Initial position, not in check for black
    position.make_legal_move(&Move::new(TileIndex::new(1), TileIndex::new(43), None, None));
    assert_eq!(position.is_in_check(&move_tables, &Color::Black), true); // Black in check by Knight
    position.make_legal_move(&Move::new(TileIndex::new(59), TileIndex::new(20), None, None));
    assert_eq!(position.is_in_check(&move_tables, &Color::White), false); // White not in check by blocked orthogonal queen
    position.make_legal_move(&Move::new(TileIndex::new(12), TileIndex::new(28), None, None));
    assert_eq!(position.is_in_check(&move_tables, &Color::White), true); // White in check by unblocked orthogonal queen
    position.make_legal_move(&Move::new(TileIndex::new(20), TileIndex::new(18), None, None));
    assert_eq!(position.is_in_check(&move_tables, &Color::White), false); // White not in check by blocked diagonal queen
    position.make_legal_move(&Move::new(TileIndex::new(11), TileIndex::new(19), None, None));
    assert_eq!(position.is_in_check(&move_tables, &Color::White), true); // White in check by unblocked diagonal queen
}

#[test]
fn test_get_legal_moves() {
    let move_tables = test_move_tables();
    let mut position = Position::new_traditional();

    position.pieces[0].piece_boards[5].flip_bit_at_tile_index(TileIndex::new(12));
    position.pieces[1].piece_boards[1].flip_bit_at_tile_index(TileIndex::new(28));
    position.pieces[0].piece_boards[5].flip_bit_at_tile_index(TileIndex::new(13));
    position.pieces[0].piece_boards[5].flip_bit_at_tile_index(TileIndex::new(21));
    position.pieces[0].update_occupied();
    position.pieces[1].update_occupied();

    let legal_moves = move_tables.get_legal_moves(&mut position);

    assert_eq!(legal_moves.get(0).unwrap(), &Move::new(TileIndex::new(4), TileIndex::new(13), None, None)); // Evading with King
    assert_eq!(legal_moves.get(1).unwrap(), &Move::new(TileIndex::new(3), TileIndex::new(12), None, None)); // Blocking with Queen
    assert_eq!(legal_moves.get(2).unwrap(), &Move::new(TileIndex::new(5), TileIndex::new(12), None, None)); // Blocking with Bishop
    assert_eq!(legal_moves.get(3).unwrap(), &Move::new(TileIndex::new(6), TileIndex::new(12), None, None)); // Blocking with Knight
    assert_eq!(legal_moves.get(4).unwrap(), &Move::new(TileIndex::new(21), TileIndex::new(28), None, None)); // Capturing with Pawn
    assert_eq!(legal_moves.len(), 5);
}

#[test]
fn perft_to_depth_three() {
    let move_tables = test_move_tables();
    let mut position = Position::new_traditional();
    assert_eq!(move_tables.perft(&mut position, 1), 20);
    assert_eq!(move_tables.perft(&mut position, 2), 400);
    assert_eq!(move_tables.perft(&mut position, 3), 8902);
    assert_eq!(position.to_string(), "RNBQKBNRPPPPPPPP32pppppppprnbqkbnr w -".to_string());
}

#[test]
fn perft_on_the_other_boards() {
    let hex_tables = graph_chess::graph_boards::hexagonal_board::HexagonalBoardGraph::new().0.move_tables();
    let mut hex = Position::new_hexagonal();
    assert!(hex_tables.perft(&mut hex, 1) > 0);
    let tri_tables = graph_chess::graph_boards::uniform_triangle_board::UniformTriangleBoardGraph::new().0.move_tables();
    let mut tri = Position::new_triangular();
    assert!(tri_tables.perft(&mut tri, 1) > 0);
}

#[test]
fn checkmate_and_stalemate() {
    let move_tables = test_move_tables();
    // Fool's mate.
    let mut position = Position::new_traditional();
    position.make_legal_move(&Move::new(TileIndex::new(13), TileIndex::new(21), None, None));
    position.make_legal_move(&Move::new(TileIndex::new(52), TileIndex::new(36), None, Some(TileIndex::new(44))));
    position.make_legal_move(&Move::new(TileIndex::new(14), TileIndex::new(30), None, Some(TileIndex::new(22))));
    position.make_legal_move(&Move::new(TileIndex::new(59), TileIndex::new(31), None, None));
    assert!(position.is_checkmate(&move_tables));
    assert!(!position.is_stalemate(&move_tables));
    assert!(!move_tables.has_legal_moves(&mut position));
    let mut start = Position::new_traditional();
    assert!(!start.is_checkmate(&move_tables));
    assert!(!start.is_stalemate(&move_tables));
}

#[test]
fn perft_to_depth_four() {
    let move_tables = test_move_tables();
    let mut position = Position::new_traditional();
    assert_eq!(move_tables.perft(&mut position, 4), 197281);
}

#[test]
fn perft_to_depth_five() {
    let move_tables = test_move_tables();
    let mut position = Position::new_traditional();
    assert_eq!(move_tables.perft(&mut position, 5), 4865609);
}

#[test]
fn moves_can_be_generated_checks_the_position() {
    let move_tables = test_move_tables();
    assert!(move_tables.moves_can_be_generated(&Position::new_traditional()));
    // A double step whose pawn stands where the record says.
    assert!(move_tables.moves_can_be_generated(&Position::from_string(
        "RNBQKBNRPPPPPPP16P16pppppppprnbqkbnr b 15,23,31".to_string()
    )));
    // The player to move has no king.
    assert!(!move_tables.moves_can_be_generated(&Position::from_string("8P54k w -".to_string())));
    // The record names a double step whose pawn is not there.
    assert!(!move_tables.moves_can_be_generated(&Position::from_string(
        "RNBQKBNRPPPPPPPP32pppppppprnbqkbnr b 15,23,31".to_string()
    )));
}


/// The sum of perft(5) over the legal first moves `first..last` (in the
/// order they are generated) of the starting position: a part of perft(6).
fn perft_six_part(first: usize, last: usize) -> u64 {
    let move_tables = test_move_tables();
    let mut position = Position::new_traditional();
    let first_moves = move_tables.get_legal_moves(&mut position);
    assert_eq!(first_moves.len(), 20);
    let mut total = 0;
    for chess_move in &first_moves[first..last] {
        position.make_legal_move(chess_move);
        total += move_tables.perft(&mut position, 5);
        position.unmake_legal_move(chess_move);
    }
    total
}

// perft(6) from the starting position is 119060324. Counting it in one test
// takes longer than a test may run here, so the count at depth 6 is checked
// in three parts, split by the first move (knight moves first, then the pawn
// moves file by file); the parts add up to 119060324.
const PERFT_SIX_PARTS: [u64; 3] = [36302836, 43256527, 39500961];

#[test]
fn test_perft_to_6() {
    let move_tables = test_move_tables();
    let mut position = Position::new_traditional();
    assert_eq!(move_tables.perft(&mut position, 1), 20);
    assert_eq!(move_tables.perft(&mut position, 2), 400);
    assert_eq!(move_tables.perft(&mut position, 3), 8902);
    assert_eq!(move_tables.perft(&mut position, 4), 197281);
    assert_eq!(move_tables.perft(&mut position, 5), 4865609);
    assert_eq!(PERFT_SIX_PARTS.iter().sum::<u64>(), 119060324);
    assert_eq!(perft_six_part(0, 7), PERFT_SIX_PARTS[0]);
}

#[test]
fn perft_six_second_part() {
    assert_eq!(perft_six_part(7, 13), PERFT_SIX_PARTS[1]);
}

#[test]
fn perft_six_third_part() {
    assert_eq!(perft_six_part(13, 20), PERFT_SIX_PARTS[2]);
}
