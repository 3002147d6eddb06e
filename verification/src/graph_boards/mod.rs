pub mod aperiodic_board;
pub mod graph_board;
pub mod hexagonal_board;
pub mod tile_graph;
pub mod traditional_board;
pub mod uniform_triangle_board;
