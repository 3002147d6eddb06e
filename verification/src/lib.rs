pub mod bit_board;
pub mod bits;
pub mod chess_move;
pub mod engine;
pub mod constants;
pub mod evaluator;
pub mod fen;
pub mod game;
pub mod graph_boards;
pub mod limited_int;
pub mod move_generator;
pub mod movement_tables;
pub mod piece;
pub mod piece_set;
pub mod searcher;
pub mod position;
pub mod start_positions;
mod text;
pub mod transposition_table;
pub mod zobrist;
