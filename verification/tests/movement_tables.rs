use graph_chess::bit_board::BitBoard;
use graph_chess::graph_boards::graph_board::TileIndex;
use graph_chess::graph_boards::hexagonal_board::HexagonalBoardGraph;
use graph_chess::graph_boards::traditional_board::{TraditionalBoardGraph, TraditionalDirection};
use graph_chess::movement_tables::{JumpTable, SlideTables};
use graph_chess::piece_set::Color;

fn test_traditional_board() -> TraditionalBoardGraph {
    TraditionalBoardGraph::new()
}

fn test_hexagonal_board() -> HexagonalBoardGraph {
    HexagonalBoardGraph::new()
}

fn traditional_slide_tables() -> SlideTables {
    test_traditional_board().0.all_slide_tables()
}

fn hexagonal_slide_tables() -> SlideTables {
    test_hexagonal_board().0.all_slide_tables()
}

#[test]
fn jump_table_test_jump_table_empty_and_len() {
    let test = JumpTable::empty(64);
    assert_eq!(test.num_tiles(), 64)
}

#[test]
fn movement_tables_test_jump_table_empty_and_len() {
    let test = JumpTable::empty(64);
    assert_eq!(test.num_tiles(), 64)
}

#[test]
fn movement_tables_test_diagonal_slide_table() {
    let source_tile = TileIndex::new(63);
    assert_eq!(
        traditional_slide_tables().query(&source_tile, &BitBoard::empty(), false, true),
        BitBoard::from_ints(vec![54, 45, 36, 27, 18, 9, 0])
    );
    let occupied = BitBoard::from_ints(vec![45]);
    assert_eq!(
        traditional_slide_tables().query(&source_tile, &occupied, false, true),
        BitBoard::from_ints(vec![54, 45])
    );
}

#[test]
fn movement_tables_test_orthogonal_table() {
    let source_tile = TileIndex::new(63);
    assert_eq!(
        traditional_slide_tables().query(&source_tile, &BitBoard::empty(), true, false),
        BitBoard::from_ints(vec![62, 61, 60, 59, 58, 57, 56, 55, 47, 39, 31, 23, 15, 7])
    );
    let occupied = BitBoard::from_ints(vec![62]);
    assert_eq!(
        traditional_slide_tables().query(&source_tile, &occupied, true, false),
        BitBoard::from_ints(vec![62, 55, 47, 39, 31, 23, 15, 7])
    )
}

#[test]
fn movement_tables_test_knight_table() {
    let board = test_traditional_board();
    let source_tile = TileIndex::new(63);
    assert_eq!(board.0.knight_jumps_table().get(source_tile), BitBoard::from_ints(vec![53, 46]))
}

#[test]
fn movement_tables_test_slide_table_for_direction() {
    let board = test_traditional_board();
    let source_tile = TileIndex::new(0);
    assert_eq!(
        board.0.slide_table_for_direction(&TraditionalDirection::new(0)).get(source_tile, &BitBoard::new(65536)).unwrap(),
        BitBoard::from_ints(vec![8, 16])
    )
}

#[test]
fn movement_tables_test_king_table() {
    let board = test_traditional_board();
    let source_tile = TileIndex::new(63);
    assert_eq!(board.0.king_move_table().get(source_tile), BitBoard::from_ints(vec![62, 55, 54]))
}

#[test]
fn test_pawn_double_table_forward() {
    let board = test_traditional_board();
    let source_tile = TileIndex::new(8);
    assert_eq!(
        board.0.pawn_double_table(&Color::White).get(source_tile, &BitBoard::empty()).unwrap(),
        BitBoard::from_ints(vec![24])
    );
    assert_eq!(
        board.0.pawn_double_table(&Color::White).get(source_tile, &BitBoard::from_ints(vec![16])).unwrap(),
        BitBoard::empty()
    );
}

#[test]
fn test_pawn_double_table_backward() {
    let board = test_traditional_board();
    let source_tile = TileIndex::new(48);
    assert_eq!(
        board.0.pawn_double_table(&Color::Black).get(source_tile, &BitBoard::empty()).unwrap(),
        BitBoard::from_ints(vec![32])
    );
    assert_eq!(
        board.0.pawn_double_table(&Color::Black).get(source_tile, &BitBoard::from_ints(vec![40])).unwrap(),
        BitBoard::empty()
    );
}

#[test]
fn test_pawn_single_table() {
    let board = test_traditional_board();
    let source_tile = TileIndex::new(48);
    assert_eq!(board.0.pawn_single_table(&Color::White).get(source_tile), BitBoard::from_ints(vec![56]));
    assert_eq!(board.0.pawn_single_table(&Color::White).get(TileIndex::new(56)), BitBoard::empty());
}

#[test]
fn movement_tables_test_pawn_attack_table() {
    let board = test_traditional_board();
    let source_tile = TileIndex::new(49);
    assert_eq!(board.0.pawn_attack_table(&Color::White).get(source_tile), BitBoard::from_ints(vec![56, 58]))
}

#[test]
fn movement_tables_test_pawn_attack_table_at_edge() {
    let board = test_traditional_board();
    let source_tile = TileIndex::new(48);
    assert_eq!(board.0.pawn_attack_table(&Color::Black).get(source_tile), BitBoard::from_ints(vec![41]))
}

#[test]
fn movement_tables_test_hex_knight_table() {
    let board = test_hexagonal_board();
    let source_tile = TileIndex::new(0);
    assert_eq!(board.0.knight_jumps_table().get(source_tile), BitBoard::from_ints(vec![9, 16, 22, 23]))
}

#[test]
fn movement_tables_test_hex_queen_table() {
    let source_tile = TileIndex::new(0);
    assert_eq!(
        hexagonal_slide_tables().query(&source_tile, &BitBoard::empty(), true, true),
        BitBoard::from_ints(vec![
            1, 2, 3, 4, 5, // Direction 10
            6, 13, 21, 30, 40, // 2
            7, 15, 24, 34, 45, 56, 66, 75, 83, 90, // 0
            14, 32, 53, 71, 85, // 1
            8, 17, 27, 38, 50 // 11
        ])
    );
}

#[test]
fn movement_tables_test_hex_king_table() {
    let board = test_hexagonal_board();
    let source_tile = TileIndex::new(0);
    assert_eq!(board.0.king_move_table().get(source_tile), BitBoard::from_ints(vec![1, 6, 7, 8, 14]))
}

#[test]
fn test_hex_pawn_double_table_backward() {
    let board = test_hexagonal_board();
    let source_tile = TileIndex::new(56);
    assert_eq!(
        board.0.pawn_double_table(&Color::Black).get(source_tile, &BitBoard::empty()).unwrap(),
        BitBoard::from_ints(vec![34])
    )
}

#[test]
fn test_reverse_knight_table() {
    let board = test_traditional_board();
    let knight_table = board.0.knight_jumps_table();
    let output = knight_table.reverse();
    // For traditional/hexagonal boards, these are equal
    assert_eq!(output, knight_table)
}

#[test]
fn test_reverse_pawn_table() {
    let board = test_traditional_board();
    // For traditional/hexagonal boards, rev(White)=Black
    assert_eq!(board.0.pawn_attack_table(&Color::White).reverse(), board.0.pawn_attack_table(&Color::Black))
}

#[test]
fn test_reverse_directional_slide_table() {
    let board = test_traditional_board();
    let directional_slide_table = board.0.slide_table_for_direction(&TraditionalDirection::new(0));
    assert_eq!(
        directional_slide_table.reverse().get(TileIndex::new(56)),
        BitBoard::from_ints(vec![0, 8, 16, 24, 32, 40, 48])
    );
    assert_eq!(directional_slide_table.reverse().get(TileIndex::new(0)), BitBoard::empty())
}

#[test]
fn reversing_a_table_twice_gives_it_back() {
    let board = test_hexagonal_board();
    let attacks = board.0.pawn_attack_table(&Color::White);
    assert_eq!(attacks.reverse().reverse(), attacks);
}

#[test]
fn promotion_tiles_are_those_without_a_step() {
    let board = test_traditional_board();
    let tables = board.0.pawn_tables(&Color::White);
    assert_eq!(tables.promotion_board, BitBoard::from_ints(vec![56, 57, 58, 59, 60, 61, 62, 63]));
    let black = board.0.pawn_tables(&Color::Black);
    assert_eq!(black.promotion_board, BitBoard::from_ints(vec![0, 1, 2, 3, 4, 5, 6, 7]));
}
