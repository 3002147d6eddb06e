use graph_chess::zobrist::{ZobristTable, ZOBRIST_SEED};

#[test]
fn zobrist_keys_are_drawn_once_and_for_all() {
    let table = ZobristTable::generate();
    let again = ZobristTable::generate();
    assert_eq!(table.pieces, again.pieces);
    assert_eq!(table.en_passant, again.en_passant);
    assert_eq!(table.black_to_move, again.black_to_move);
    assert_eq!(table.pieces.len(), 2 * 6 * 128);
    assert_eq!(table.en_passant.len(), 128);
    assert_ne!(table.black_to_move, ZOBRIST_SEED);
    assert_ne!(table.pieces[0], table.pieces[1]);
    assert_ne!(table.piece_key(0, 0, 0), table.piece_key(1, 0, 0));
    assert_eq!(table.piece_key(1, 2, 3), table.pieces[(1 * 6 + 2) * 128 + 3]);
}
