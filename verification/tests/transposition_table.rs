use graph_chess::chess_move::Move;
use graph_chess::graph_boards::graph_board::TileIndex;
use graph_chess::transposition_table::{Flag, TranspositionTable};

fn test_table() -> TranspositionTable {
    let mut table = TranspositionTable::new();
    table.store(1, 100, 8, Flag::Exact, Some(Move::new(TileIndex::new(0), TileIndex::new(1), None, None)));
    table.store(2, 200, 8, Flag::LowerBound, Some(Move::new(TileIndex::new(0), TileIndex::new(1), None, None)));
    table.store(3, 50, 8, Flag::UpperBound, Some(Move::new(TileIndex::new(0), TileIndex::new(1), None, None)));
    table
}

#[test]
fn test_match_and_retrieval() {
    let table = test_table();
    assert_eq!(table.retrieve(1, 8, 50, 150), Some(100))
}

#[test]
fn test_key_mismatch() {
    let table = test_table();
    assert_eq!(table.retrieve(1000001, 8, 50, 150), None)
}

#[test]
fn test_insufficient_depth() {
    let table = test_table();
    assert_eq!(table.retrieve(1, 9, 50, 150), None)
}

#[test]
fn test_beta_cutoff() {
    let table = test_table();
    assert_eq!(table.retrieve(2, 8, 50, 150), Some(200))
}

#[test]
fn test_alpha_cutoff() {
    let table = test_table();
    assert_eq!(table.retrieve(3, 8, 70, 150), Some(50))
}

#[test]
fn test_depth_replacement() {
    let mut table = test_table();
    table.store(1000001, 300, 9, Flag::Exact, Some(Move::new(TileIndex::new(1), TileIndex::new(2), None, None)));
    assert_eq!(table.retrieve(1, 8, 50, 150), None);
    assert_eq!(table.retrieve(1000001, 9, 50, 150), Some(300))
}

#[test]
fn a_shallower_store_of_another_key_is_refused() {
    let mut table = test_table();
    table.store(1000001, 300, 7, Flag::Exact, None);
    assert_eq!(table.retrieve(1, 8, 50, 150), Some(100));
    assert_eq!(table.retrieve(1000001, 7, 50, 150), None);
    table.store(1, 120, 2, Flag::Exact, None);
    assert_eq!(table.retrieve(1, 2, 50, 150), Some(120));
}

#[test]
fn bounds_that_do_not_settle_the_search() {
    let table = test_table();
    assert_eq!(table.retrieve(2, 8, 50, 250), None);
    assert_eq!(table.retrieve(3, 8, 40, 150), None);
    assert_eq!(table.get_index(1_000_007), 7);
}
