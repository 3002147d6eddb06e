use graph_chess::chess_move::Move;
use graph_chess::engine::Engine;
use graph_chess::evaluator::{Evaluator, MobilityTable};
use graph_chess::game::{ChessError, Game};
use graph_chess::graph_boards::graph_board::TileIndex;
use graph_chess::graph_boards::traditional_board::TraditionalBoardGraph;
use graph_chess::move_generator::MoveTables;
use graph_chess::piece::Piece;
use graph_chess::piece_set::Color;
use graph_chess::position::{GameOver, Position};
use graph_chess::searcher::Searcher;

fn test_move_tables() -> MoveTables {
    TraditionalBoardGraph::new().0.move_tables()
}

fn new_game() -> Game {
    let move_tables = test_move_tables();
    Game {
        engine: Engine::new(move_tables),
        are_players_cpu: vec![false, true],
        current_position: Position::new_traditional(),
        board: TraditionalBoardGraph::new(),
    }
}

#[test]
fn mobility_tables_count_moves() {
    let move_tables = test_move_tables();
    let knight = MobilityTable::from_jumps(&move_tables.knight_table);
    assert_eq!(knight.0[0], 2);
    assert_eq!(knight.0[27], 8);
    let queen = MobilityTable::from_slides(&move_tables.slide_tables, graph_chess::piece_set::PieceType::Queen);
    assert_eq!(queen.0[0], 21);
    assert_eq!(queen.0[27], 27);
    assert_eq!(queen.0[100], 0);
    let rook = MobilityTable::from_slides(&move_tables.slide_tables, graph_chess::piece_set::PieceType::Rook);
    assert_eq!(rook.0[0], 14);
    let bishop = MobilityTable::from_slides(&move_tables.slide_tables, graph_chess::piece_set::PieceType::Bishop);
    assert_eq!(bishop.0[0], 7);
    let pawn = MobilityTable::from_pawn(&move_tables.white_pawn_tables);
    assert_eq!(pawn.0[8], 1);
    assert_eq!(pawn.0[60], 0);
}

#[test]
fn evaluation_of_positions() {
    let move_tables = test_move_tables();
    let evaluator = Evaluator::new(&move_tables);
    let position = Position::new_traditional();
    // The starting position is symmetric.
    assert_eq!(evaluator.evaluate(&position), 0);
    assert_eq!(evaluator.pieceset_material_score(&position.pieces[0]), 9999 + 900 + 2 * 500 + 2 * 350 + 2 * 350 + 8 * 100);
    let mut lopsided = Position::new_traditional();
    lopsided.pieces[1].piece_boards[1].flip_bit_at_tile_index(TileIndex::new(59));
    lopsided.pieces[1].update_occupied();
    assert!(evaluator.evaluate(&lopsided) > 0);
    // Knights on their home tiles reach 3 tiles each: 5 * 6.
    assert_eq!(
        evaluator.piece_positional_score(position.pieces[0].piece_boards[4], graph_chess::piece_set::PieceType::Knight, &Color::White),
        30
    );
}

#[test]
fn engine_plays_the_middle_legal_move() {
    let move_tables = test_move_tables();
    let engine = Engine::new(move_tables);
    let mut position = Position::new_traditional();
    let legal = engine.move_tables.get_legal_moves(&mut position);
    assert_eq!(engine.search_for_move(&mut position), legal[legal.len() / 2]);
}

#[test]
fn searcher_finds_a_move() {
    let move_tables = test_move_tables();
    let mut searcher = Searcher::new(move_tables);
    let mut position = Position::new_traditional();
    let result = searcher.get_best_move(&mut position, 2);
    assert!(result.best_move.is_some());
    assert_eq!(position.to_string(), "RNBQKBNRPPPPPPPP32pppppppprnbqkbnr w -".to_string());
    let score = searcher.alpha_beta(&mut position, i32::MIN + 1, i32::MAX, 1);
    assert!(score.abs() < 1_000_000_000);
}

#[test]
fn searcher_takes_a_hanging_queen() {
    let move_tables = test_move_tables();
    let mut searcher = Searcher::new(move_tables);
    // The black queen on tile 27 can be taken by the white queen on tile 3.
    let mut position = Position::from_string("RNBQKBNRPPP1PPPP11q20pppppppprnb1kbnr w -".to_string());
    let result = searcher.get_best_move(&mut position, 1);
    assert_eq!(result.best_move, Some(Move::new(TileIndex::new(3), TileIndex::new(27), None, None)));
}

#[test]
fn game_rounds() {
    let mut game = new_game();
    assert_eq!(game.is_over(), None);
    // A white pawn may step once or twice.
    let options = game.query_tile(&TileIndex::new(12));
    assert_eq!(options, graph_chess::bit_board::BitBoard::from_ints(vec![20, 28]));
    // Nothing stands on tile 30.
    assert_eq!(game.query_tile(&TileIndex::new(30)), graph_chess::bit_board::BitBoard::empty());
    assert_eq!(game.attempt_move_input(&TileIndex::new(12), &TileIndex::new(28)), Ok(()));
    assert_eq!(game.current_position.active_player, Color::Black);
    assert_eq!(
        game.current_position.record.en_passant_data,
        Some(graph_chess::chess_move::EnPassantData::new(TileIndex::new(12), TileIndex::new(20), TileIndex::new(28)))
    );
    // White has no piece on tile 52 and black's pawn cannot jump three tiles.
    assert_eq!(game.attempt_move_input(&TileIndex::new(52), &TileIndex::new(28)), Err(ChessError::InvalidMoveError));
    assert_eq!(game.attempt_move_input(&TileIndex::new(20), &TileIndex::new(28)), Err(ChessError::InvalidMoveError));
    game.make_cpu_move();
    assert_eq!(game.current_position.active_player, Color::White);
}

#[test]
fn game_over_by_checkmate() {
    let mut game = new_game();
    for (s, d) in [(13, 21), (52, 36), (14, 30), (59, 31)] {
        assert_eq!(game.attempt_move_input(&TileIndex::new(s), &TileIndex::new(d)), Ok(()));
    }
    assert_eq!(game.is_over(), Some(GameOver::Checkmate));
}

#[test]
fn piece_kinds_in_order() {
    assert_eq!(Piece::Pawn.to_index(), 0);
    assert_eq!(Piece::Queen.to_index(), 4);
    assert_eq!(Piece::King.to_index(), 5);
    assert!(Piece::Bishop < Piece::Rook);
}

#[test]
fn a_mated_side_gets_the_mate_score_lowered_by_the_remaining_depth() {
    let move_tables = test_move_tables();
    let mut searcher = Searcher::new(move_tables);
    // Fool's mate: the black queen on tile 31 mates the white king.
    let mut position = Position::from_string("RNBQKBNRPPPPP2P5P8Pq4p11pppp1ppprnb1kbnr w -".to_string());
    assert!(position.is_checkmate(&searcher.movegen));
    assert_eq!(searcher.alpha_beta(&mut position, i32::MIN + 1, i32::MAX, 2), -99999 - 2);
    assert_eq!(searcher.alpha_beta(&mut position, i32::MIN + 1, i32::MAX, 3), -99999 - 3);
}

#[test]
fn a_score_inside_the_window_is_stored_as_exact() {
    let move_tables = test_move_tables();
    let mut searcher = Searcher::new(move_tables);
    let mut position = Position::new_traditional();
    let score = searcher.alpha_beta(&mut position, -1_000_000, 1_000_000, 1);
    assert!(-1_000_000 < score && score < 1_000_000);
    let key = position.get_zobrist();
    assert_eq!(searcher.transposition_table.retrieve(key, 1, score - 1, score + 1), Some(score));
    assert_eq!(searcher.alpha_beta(&mut position, score - 5, score + 5, 1), score);
}

#[test]
fn evaluation_is_zero_sum() {
    let move_tables = test_move_tables();
    let evaluator = Evaluator::new(&move_tables);
    assert_eq!(evaluator.evaluate(&Position::new_traditional()), 0);
    let white_to_move = Position::from_string("RNBQKBNRPPP1PPPP11q20pppppppprnb1kbnr w -".to_string());
    let black_to_move = Position::from_string("RNBQKBNRPPP1PPPP11q20pppppppprnb1kbnr b -".to_string());
    assert_eq!(evaluator.evaluate(&white_to_move), -evaluator.evaluate(&black_to_move));
    assert!(evaluator.evaluate(&white_to_move) != 0);
}

#[test]
fn one_ply_search_gives_the_negamax_value() {
    let move_tables = test_move_tables();
    let evaluator = Evaluator::new(&move_tables);
    let mut searcher = Searcher::new(move_tables);
    let mut position = Position::from_string("RNBQKBNRPPP1PPPP11q20pppppppprnb1kbnr w -".to_string());
    let mut best = isize::MIN;
    for chess_move in searcher.movegen.get_legal_moves(&mut position) {
        position.make_legal_move(&chess_move);
        let score = -evaluator.evaluate(&position);
        position.unmake_legal_move(&chess_move);
        if score > best {
            best = score;
        }
    }
    assert_eq!(searcher.alpha_beta(&mut position, i32::MIN + 1, i32::MAX, 1) as isize, best);
}
