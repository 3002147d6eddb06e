use graph_chess::bit_board::BitBoard;
use graph_chess::graph_boards::graph_board::{GraphBoard, Tile, TileIndex};
use graph_chess::graph_boards::hexagonal_board::HexagonalBoardGraph;
use graph_chess::graph_boards::traditional_board::{TraditionalBoardGraph, TraditionalDirection};
use graph_chess::graph_boards::uniform_triangle_board::UniformTriangleBoardGraph;
use graph_chess::limited_int::LimitedInt;
use graph_chess::piece_set::Color;

fn test_traditional_board() -> TraditionalBoardGraph {
    TraditionalBoardGraph::new()
}

fn test_hexagonal_board() -> HexagonalBoardGraph {
    HexagonalBoardGraph::new()
}

#[test]
fn test_get_next_tile_in_direction_returns_tile() {
    let board = test_traditional_board();
    assert_eq!(
        board.0.get_next_tile_in_direction(TileIndex::new(0), &TraditionalDirection::new(0)).unwrap(),
        TileIndex::new(8)
    );
}

#[test]
fn test_get_next_tile_in_direction_returns_none() {
    let board = test_traditional_board();
    assert_eq!(board.0.get_next_tile_in_direction(TileIndex::new(0), &TraditionalDirection::new(2)), None)
}

#[test]
fn graph_board_test_knight_move_from() {
    let board = test_traditional_board();
    let source_tile = TileIndex::new(27);
    assert_eq!(
        board.0.knight_jumps_from(source_tile),
        BitBoard::from_ints(vec![27 + 10, 27 - 10, 27 + 6, 27 - 6, 27 + 17, 27 - 17, 27 + 15, 27 - 15])
    )
}

#[test]
fn graph_board_test_slide_move_from_no_limit_no_obstructions() {
    let board = test_traditional_board();
    let source_tile = TileIndex::new(1);
    assert_eq!(
        board.0.slides_from_in_direction(source_tile, &TraditionalDirection::new(6), 0, BitBoard::empty()),
        BitBoard::from_ints(vec![2, 3, 4, 5, 6, 7])
    )
}

#[test]
fn graph_board_test_slide_move_with_limit() {
    let board = test_traditional_board();
    let source_tile = TileIndex::new(1);
    assert_eq!(
        board.0.slides_from_in_direction(source_tile, &TraditionalDirection::new(6), 1, BitBoard::empty()),
        BitBoard::from_ints(vec![2])
    )
}

#[test]
fn graph_board_test_slide_move_with_obstructions() {
    let board = test_traditional_board();
    let source_tile = TileIndex::new(1);
    let obstructions = BitBoard::new(16);
    assert_eq!(
        board.0.slides_from_in_direction(source_tile, &TraditionalDirection::new(6), 0, obstructions),
        BitBoard::from_ints(vec![2, 3, 4])
    )
}

#[test]
fn graph_board_test_diagonal_slides_unobstructed() {
    let board = test_traditional_board();
    let source_tile = TileIndex::new(27);
    assert_eq!(
        board.0.cast_slides_from(source_tile, BitBoard::empty(), 0, true, false),
        BitBoard::from_ints(vec![0, 9, 18, 36, 45, 54, 63, 34, 41, 48, 20, 13, 6])
    )
}

#[test]
fn graph_board_test_diagonal_slides_obstructed() {
    let board = test_traditional_board();
    let source_tile = TileIndex::new(27);
    let occupied = BitBoard::from_ints(vec![36, 34, 20]);
    assert_eq!(
        board.0.cast_slides_from(source_tile, occupied, 0, true, false),
        BitBoard::from_ints(vec![0, 9, 18, 36, 34, 20])
    )
}

#[test]
fn graph_board_test_orthogonal_slides_unobstructed() {
    let board = test_traditional_board();
    let source_tile = TileIndex::new(27);
    assert_eq!(
        board.0.cast_slides_from(source_tile, BitBoard::empty(), 0, false, true),
        BitBoard::from_ints(vec![24, 25, 26, 28, 29, 30, 31, 3, 19, 11, 35, 43, 51, 59])
    )
}

#[test]
fn graph_board_test_both_slides_unobstructed() {
    let board = test_traditional_board();
    let source_tile = TileIndex::new(27);
    assert_eq!(
        board.0.cast_slides_from(source_tile, BitBoard::empty(), 0, true, true),
        BitBoard::from_ints(vec![
            24, 25, 26, 28, 29, 30, 31, 3, 19, 11, 35, 43, 51, 59, 0, 9, 18, 36, 45, 54, 63, 34, 41, 48, 20, 13, 6
        ])
    )
}

#[test]
fn graph_board_test_cast_slides_with_limit() {
    let board = test_traditional_board();
    let source_tile = TileIndex::new(27);
    assert_eq!(
        board.0.cast_slides_from(source_tile, BitBoard::empty(), 1, true, true),
        BitBoard::from_ints(vec![36, 35, 34, 28, 26, 20, 19, 18])
    )
}

#[test]
fn graph_board_test_knight_table() {
    let board = test_traditional_board();
    assert_eq!(board.0.knight_jumps_table().get(TileIndex::new(63)), BitBoard::from_ints(vec![53, 46]))
}

#[test]
fn graph_board_test_king_table() {
    let board = test_traditional_board();
    assert_eq!(board.0.king_move_table().get(TileIndex::new(63)), BitBoard::from_ints(vec![62, 55, 54]))
}

#[test]
fn graph_board_test_pawn_attack_table() {
    let board = test_traditional_board();
    assert_eq!(board.0.pawn_attack_table(&Color::White).get(TileIndex::new(49)), BitBoard::from_ints(vec![56, 58]))
}

#[test]
fn graph_board_test_pawn_attack_table_at_edge() {
    let board = test_traditional_board();
    assert_eq!(board.0.pawn_attack_table(&Color::Black).get(TileIndex::new(48)), BitBoard::from_ints(vec![41]))
}

#[test]
fn graph_board_test_hex_knight_table() {
    let board = test_hexagonal_board();
    assert_eq!(board.0.knight_jumps_table().get(TileIndex::new(0)), BitBoard::from_ints(vec![9, 16, 22, 23]))
}

#[test]
fn graph_board_test_hex_queen_table() {
    let slide_tables = test_hexagonal_board().0.all_slide_tables();
    let mut attacks = BitBoard::empty();
    for direction in 0..12 {
        attacks = attacks | slide_tables.0[direction].get(TileIndex::new(0), &BitBoard::empty()).unwrap();
    }
    assert_eq!(
        attacks,
        BitBoard::from_ints(vec![
            1, 2, 3, 4, 5, // Direction 10
            6, 13, 21, 30, 40, // 2
            7, 15, 24, 34, 45, 56, 66, 75, 83, 90, // 0
            14, 32, 53, 71, 85, // 1
            8, 17, 27, 38, 50 // 11
        ])
    );
}

#[test]
fn graph_board_test_hex_king_table() {
    let board = test_hexagonal_board();
    assert_eq!(board.0.king_move_table().get(TileIndex::new(0)), BitBoard::from_ints(vec![1, 6, 7, 8, 14]))
}

#[test]
fn boards_have_their_tiles_and_edges() {
    let traditional = test_traditional_board();
    assert_eq!(traditional.0.node_count(), 64);
    let hexagonal = test_hexagonal_board();
    assert_eq!(hexagonal.0.node_count(), 91);
    let triangle = UniformTriangleBoardGraph::new();
    assert_eq!(triangle.0.node_count(), 55);
    assert_eq!(traditional.0.tile(TileIndex::new(9)).pawn_start, Some(Color::White));
    assert_eq!(traditional.0.tile(TileIndex::new(50)).pawn_start, Some(Color::Black));
    assert_eq!(traditional.0.tile(TileIndex::new(20)).pawn_start, None);
    assert_eq!(hexagonal.0.tile(TileIndex::new(86)).pawn_start, Some(Color::Black));
}

#[test]
fn rays_of_the_boards_end() {
    assert!(test_traditional_board().0.rays_end_check());
    assert!(test_hexagonal_board().0.rays_end_check());
    assert!(UniformTriangleBoardGraph::new().0.rays_end_check());
    assert!(test_traditional_board().0.pawn_starts_step_check(&Color::White));
    assert!(test_hexagonal_board().0.pawn_starts_step_check(&Color::Black));
    assert!(test_traditional_board().0.checked_move_tables().is_some());
    assert!(UniformTriangleBoardGraph::new().0.checked_move_tables().is_some());
}

#[test]
fn a_ray_ends_after_its_last_edge() {
    let mut board: GraphBoard<1, 2> = GraphBoard::new();
    let a = board.add_node(Tile { orientation: LimitedInt::new(0), pawn_start: None });
    let b = board.add_node(Tile { orientation: LimitedInt::new(0), pawn_start: None });
    board.add_edge(a, b, LimitedInt::new(0));
    assert!(board.ray_ends(a, &LimitedInt::new(0)));
    assert!(board.ray_ends(b, &LimitedInt::new(1)));
    assert_eq!(board.slides_from_in_direction(a, &LimitedInt::new(0), 0, BitBoard::empty()), BitBoard::new(2));
    assert_eq!(board.get_next_tile_in_direction(b, &LimitedInt::new(0)), None);
}

#[test]
fn the_latest_edge_of_a_direction_wins() {
    let mut board: GraphBoard<1, 2> = GraphBoard::new();
    let a = board.add_node(Tile { orientation: LimitedInt::new(0), pawn_start: None });
    let b = board.add_node(Tile { orientation: LimitedInt::new(0), pawn_start: None });
    let c = board.add_node(Tile { orientation: LimitedInt::new(0), pawn_start: None });
    board.add_edge(a, b, LimitedInt::new(0));
    board.add_edge(a, c, LimitedInt::new(0));
    assert_eq!(board.get_next_tile_in_direction(a, &LimitedInt::new(0)), Some(c));
}

#[test]
fn triangle_knight_jumps() {
    let board = UniformTriangleBoardGraph::new();
    // From the corner tile 0: steps 0, 1 and 2 lead to 1, 10 and 9.
    let jumps = board.0.knight_jumps_from(TileIndex::new(0));
    assert!(jumps.get_bit_at_tile(&TileIndex::new(11)));
    assert!(!jumps.get_bit_at_tile(&TileIndex::new(0)));
}

#[test]
fn every_hexagonal_step_can_be_taken_back() {
    let board = test_hexagonal_board();
    let mut steps = 0;
    for t in 0..91 {
        for d in 0..12u8 {
            if let Some(u) = board.0.get_next_tile_in_direction(TileIndex::new(t), &LimitedInt::<12>::new(d)) {
                steps += 1;
                let back = board.0.get_next_tile_in_direction(u, &LimitedInt::<12>::new((d + 6) % 12));
                assert_eq!(back, Some(TileIndex::new(t)));
            }
        }
    }
    assert_eq!(steps, 900);
    // The corner of the middle row steps forward to the corner of the next row.
    assert_eq!(
        board.0.get_next_tile_in_direction(TileIndex::new(40), &LimitedInt::<12>::new(0)),
        Some(TileIndex::new(51))
    );
}
