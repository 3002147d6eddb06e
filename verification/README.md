# graph_chess

A chess engine for boards of any shape: the tiles of a board are the nodes of a
directed graph whose edges carry a direction, and every movement table (king,
knight, pawn and sliding moves) is derived from that graph. Traditional,
Glinski hexagonal and triangular boards are provided.

The library is written in Verus; every function states its behaviour in
`requires`/`ensures` and is proved against it, except a small set of trusted
wrappers whose contracts are assumed: the petgraph calls in
`src/graph_boards/tile_graph.rs` (`graph_new`, `graph_add_node`,
`graph_add_edge`, `graph_node_count`, `graph_node_weight`, `graph_outgoing`,
with the type declarations `ExGraph`, `ExDirected` and the names
`graph_nodes`, `graph_edges`), the rand call `seeded_u64_values` in
`src/zobrist.rs` (named `seeded_u64_stream`), and the std calls
`u128_trailing_zeros` (`src/bits.rs`), `str_chars` and
`string_from_chars` (`src/text.rs`).

Layout:

- `src/graph_boards/` – the board graph (on `petgraph`), the concrete boards and
  the derivation of the movement tables.
- `src/bit_board.rs`, `src/bits.rs` – 128-tile bit sets and move enumeration.
- `src/movement_tables.rs`, `src/move_generator.rs` – jump and slide tables,
  pseudo-legal and legal move generation, check detection, perft.
- `src/position.rs`, `src/fen.rs`, `src/start_positions.rs` – positions, making
  and unmaking moves, reading and writing position strings.
- `src/zobrist.rs`, `src/transposition_table.rs` – position hashing (keys drawn
  from `rand`) and the transposition table.
- `src/evaluator.rs`, `src/searcher.rs`, `src/engine.rs`, `src/game.rs` –
  evaluation, alpha-beta search, the computer player and the game rules around
  user input.
- `tests/` – the test suite.
- `app/` – the graphical front end (Bevy), outside verification.
