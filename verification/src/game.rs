use vstd::prelude::*;

use crate::bit_board::{board_of, lemma_board_finite, lemma_board_of, lemma_board_ops, BitBoard, BitBoardTiles};
use crate::chess_move::{EnPassantData, Move};
use crate::engine::Engine;
use crate::graph_boards::graph_board::TileIndex;
use crate::graph_boards::traditional_board::TraditionalBoardGraph;
use crate::move_generator::MoveTables;
use crate::piece_set::{piece_type_of, Color, PieceType};
use crate::position::{lemma_union_of_boards, union_of, GameOver, Position, PositionModel};

verus! {

/// Why a move asked for was not played.
#[derive(Debug, Clone, PartialEq, Eq, Structural)]
pub enum ChessError {
    InvalidMoveError,
}

/// A game in progress: the engine, which players the computer plays, the
/// position and the board.
pub struct Game {
    pub engine: Engine,
    pub are_players_cpu: Vec<bool>,
    pub current_position: Position,
    pub board: TraditionalBoardGraph,
}

/// The tiles the piece on `t` reaches, whichever player it belongs to: a
/// pawn by its pawn moves, another piece by its moves onto tiles not held by
/// its own side.
pub open spec fn tile_options(tables: MoveTables, model: PositionModel, t: int) -> Set<int> {
    let color = side_at(model, t);
    let c = color.spec_idx();
    let occupied = board_of(union_of(model.boards[0]).union(union_of(model.boards[1])));
    match selected_piece(model, t) {
        None => Set::empty(),
        Some(k) => if k == 5 {
            tables.pawn_moves(color, t, board_of(union_of(model.boards[1 - c])), occupied, model.record.en_passant_data)
        } else {
            tables.piece_moves(k, t, occupied).difference(union_of(model.boards[c]))
        },
    }
}

/// The board index of the piece on `t`, white's first.
pub open spec fn selected_piece(model: PositionModel, t: int) -> Option<int> {
    match model.piece_index_at(0, t) {
        Some(k) => Some(k),
        None => model.piece_index_at(1, t),
    }
}

/// The side of the piece on `t`: black if black has a piece there.
pub open spec fn side_at(model: PositionModel, t: int) -> Color {
    if model.piece_index_at(1, t) is Some {
        Color::Black
    } else {
        Color::White
    }
}

/// The move a click from `t` to `d` stands for: a pawn reaching a promotion
/// tile becomes a queen.
pub open spec fn query_move(tables: MoveTables, model: PositionModel, t: int, d: int) -> Move {
    Move {
        source_tile: TileIndex(t as usize),
        destination_tile: TileIndex(d as usize),
        promotion: if tables.pawn_tables_of(side_at(model, t)).promotion_board@.contains(d)
            && selected_piece(model, t) == Some(5int) {
            Some(PieceType::Queen)
        } else {
            None
        },
        en_passant_data: None,
    }
}

/// The move a player's input from `s` to `d` stands for, or `None` when the
/// player to move has no piece on `s`: a pawn move carries the double-step
/// data of its tile (white's tables first) when it lands where the double
/// step ends, and a pawn reaching a promotion tile becomes a queen.
pub open spec fn input_move(tables: MoveTables, model: PositionModel, s: int, d: int) -> Option<Move> {
    match model.piece_index_at(model.player(), s) {
        None => None,
        Some(k) => {
            let ep = if k == 5 {
                match tables.en_passantable(Color::White, s) {
                    Some(e) => Some(e),
                    None => tables.en_passantable(Color::Black, s),
                }
            } else {
                None
            };
            let ep = match ep {
                Some(e) => if e.occupied_tile.0 != d {
                    None
                } else {
                    Some(e)
                },
                None => None,
            };
            let promotion = if k == 5 && tables.pawn_tables_of(model.active_player).promotion_board@.contains(d) {
                Some(PieceType::Queen)
            } else {
                None
            };
            Some(
                Move {
                    source_tile: TileIndex(s as usize),
                    destination_tile: TileIndex(d as usize),
                    promotion,
                    en_passant_data: ep,
                },
            )
        },
    }
}

impl Game {
    /// Whether the game is over: by checkmate, or drawn by stalemate or the
    /// fifty-move rule.
    pub fn is_over(&mut self) -> (r: Option<GameOver>)
        requires
            old(self).engine.move_tables.wf(),
            old(self).current_position.wf(),
            old(self).engine.move_tables.in_check_ok(
                old(self).current_position.model(),
                old(self).current_position.active_player,
            ),
            old(self).engine.move_tables.moves_ok(old(self).current_position.model()),
        ensures
            ({
                let tables = old(self).engine.move_tables;
                let model = old(self).current_position.model();
                let in_check = tables.in_check(model, model.active_player);
                let stuck = tables.legal_moves(model).len() == 0;
                r == (if in_check && stuck {
                    Some(GameOver::Checkmate)
                } else if (!in_check && stuck) || model.record.fifty_move_counter >= 50 {
                    Some(GameOver::Draw)
                } else {
                    None
                })
            }),
            final(self).current_position.model() == old(self).current_position.model(),
            final(self).current_position.wf(),
            final(self).engine == old(self).engine,
    {
        if self.current_position.is_checkmate(&self.engine.move_tables) {
            Some(GameOver::Checkmate)
        } else if self.current_position.is_stalemate(&self.engine.move_tables)
            || self.current_position.fifty_move_draw() {
            Some(GameOver::Draw)
        } else {
            None
        }
    }

    /// Plays the engine's move.
    pub fn make_cpu_move(&mut self)
        requires
            old(self).engine.move_tables.wf(),
            old(self).current_position.wf(),
            old(self).engine.move_tables.moves_ok(old(self).current_position.model()),
            old(self).engine.move_tables.legal_moves(old(self).current_position.model()).len() > 0,
        ensures
            ({
                let tables = old(self).engine.move_tables;
                let model = old(self).current_position.model();
                let legal = tables.legal_moves(model);
                Position::made(old(self).current_position, final(self).current_position, legal[legal.len() as int / 2])
            }),
            final(self).engine == old(self).engine,
    {
        let ghost model = self.current_position.model();
        let cpu_move = self.engine.search_for_move(&mut self.current_position);
        proof {
            let tables = self.engine.move_tables;
            let legal = tables.legal_moves(model);
            tables.lemma_legal_move_ok(model, legal.len() as int / 2);
        }
        self.current_position.make_legal_move(&cpu_move);
    }

    /// The tiles the piece on `tile_index` may move to: its moves that are
    /// playable now (a pawn reaching a promotion tile promoting to a queen).
    pub fn query_tile(&mut self, tile_index: &TileIndex) -> (r: BitBoard)
        requires
            old(self).engine.move_tables.wf(),
            old(self).current_position.wf(),
            tile_index.0 < old(self).engine.move_tables.num_tiles(),
            old(self).engine.move_tables.moves_ok(old(self).current_position.model()),
        ensures
            r@ == Set::new(
                |d: int|
                    tile_options(old(self).engine.move_tables, old(self).current_position.model(), tile_index.0 as int).contains(d)
                        && old(self).current_position.playable(
                        &old(self).engine.move_tables,
                        query_move(old(self).engine.move_tables, old(self).current_position.model(), tile_index.0 as int, d),
                    ),
            ),
            final(self).current_position.model() == old(self).current_position.model(),
            final(self).current_position.wf(),
            final(self).engine == old(self).engine,
    {
        let ghost model = self.current_position.model();
        let ghost start = self.current_position;
        let ghost tables = self.engine.move_tables;
        let ghost t = tile_index.0 as int;
        let ghost engine0 = self.engine;
        let white_pieces = &self.current_position.pieces[0];
        let black_pieces = &self.current_position.pieces[1];
        proof {
            lemma_union_of_boards(*white_pieces);
            lemma_union_of_boards(*black_pieces);
            lemma_board_ops(white_pieces.occupied, black_pieces.occupied);
            assert(white_pieces.piece_boards@ == model.boards[0]);
            assert(black_pieces.piece_boards@ == model.boards[1]);
        }
        let occupied = white_pieces.occupied | black_pieces.occupied;
        proof {
            lemma_board_finite(occupied);
            lemma_board_of(occupied@);
            assert(occupied@ =~= union_of(model.boards[0]).union(union_of(model.boards[1])));
            lemma_board_finite(white_pieces.occupied);
            lemma_board_of(white_pieces.occupied@);
            lemma_board_finite(black_pieces.occupied);
            lemma_board_of(black_pieces.occupied@);
        }
        let selected_white = white_pieces.get_piece_at(tile_index);
        let selected_black = black_pieces.get_piece_at(tile_index);
        let selected = match selected_white {
            Some(p) => Some(p),
            None => selected_black,
        };
        let (selected_color, allied_occupied, enemy_occupied) = match selected_black {
            Some(_t) => (Color::Black, black_pieces.occupied, white_pieces.occupied),
            _ => (Color::White, white_pieces.occupied, black_pieces.occupied),
        };
        let pawn_tables = match selected_color {
            Color::White => &self.engine.move_tables.white_pawn_tables,
            Color::Black => &self.engine.move_tables.black_pawn_tables,
        };
        proof {
            assert(selected_color == side_at(model, t));
            crate::piece_set::lemma_first_board_from(model.boards[0], t, 0);
            crate::piece_set::lemma_first_board_from(model.boards[1], t, 0);
            if selected is Some {
                assert(selected->0.spec_idx() == selected_piece(model, t)->0);
            } else {
                assert(selected_piece(model, t) is None);
            }
            lemma_board_ops(BitBoard(0), BitBoard(0));
        }
        let mut pseudo_moves = match selected {
            Some(PieceType::Pawn) => self.engine.move_tables.query_pawn(
                &selected_color,
                *tile_index,
                &enemy_occupied,
                occupied,
                &self.current_position.record.en_passant_data,
            ),
            None => BitBoard::empty(),
            Some(piece) => {
                let options = self.engine.move_tables.query_piece(&piece, *tile_index, occupied);
                proof {
                    lemma_board_ops(options, allied_occupied);
                }
                options & BitBoard(!allied_occupied.0)
            },
        };
        let ghost options = pseudo_moves@;
        proof {
            assert(options =~= tile_options(tables, model, t));
            lemma_board_finite(pseudo_moves);
            assert forall|d: int| #[trigger] options.contains(d) implies start.playable_testable(
                &tables,
                query_move(tables, model, t, d),
            ) by {
                assert(vstd::set_lib::set_int_range(0, 128).contains(d));
                lemma_query_move_testable(tables, start, t, d);
            }
        }
        let mut remaining = BitBoardTiles::new(pseudo_moves);
        loop
            invariant
                self.engine == engine0,
                engine0.move_tables == tables,
                start.model() == model,
                self.current_position.model() == model,
                self.current_position.wf(),
                tables.wf(),
                t < tables.num_tiles(),
                tile_index.0 == t,
                remaining@.finite(),
                remaining@.subset_of(options),
                pawn_tables == tables.pawn_tables_of(selected_color),
                selected_color == side_at(model, t),
                selected matches Some(p) ==> selected_piece(model, t) == Some(p.spec_idx()),
                selected is None ==> selected_piece(model, t) is None,
                forall|d: int| #[trigger] options.contains(d) ==> start.playable_testable(&tables, query_move(tables, model, t, d)),
                forall|d: int| 0 <= d < 128 ==> start.playable(&tables, #[trigger] query_move(tables, model, t, d))
                    == self.current_position.playable(&tables, query_move(tables, model, t, d)),
                pseudo_moves@ == Set::new(
                    |d: int| options.contains(d) && (remaining@.contains(d) || start.playable(&tables, query_move(tables, model, t, d))),
                ),
            ensures
                self.engine == engine0,
                self.current_position.model() == model,
                self.current_position.wf(),
                pseudo_moves@ == Set::new(
                    |d: int| options.contains(d) && start.playable(&tables, query_move(tables, model, t, d)),
                ),
            decreases remaining@.len(),
        {
            let ghost before = remaining@;
            match remaining.next() {
                None => {
                    proof {
                        assert(pseudo_moves@ =~= Set::new(
                            |d: int| options.contains(d) && start.playable(&tables, query_move(tables, model, t, d)),
                        ));
                    }
                    break;
                },
                Some(destination_tile) => {
                    let mut promotion: Option<PieceType> = None;
                    if pawn_tables.promotion_board.get_bit_at_tile(&destination_tile) && selected == Some(PieceType::Pawn) {
                        promotion = Some(PieceType::Queen);
                    }
                    let chess_move = Move::new(*tile_index, destination_tile, promotion, None);
                    proof {
                        assert(chess_move == query_move(tables, model, t, destination_tile.0 as int));
                        assert(start.playable_testable(&tables, chess_move));
                        assert(self.current_position.playable_testable(&self.engine.move_tables, chess_move));
                    }
                    let ghost pre = self.current_position;
                    let playable = self.current_position.is_playable_move(&chess_move, &self.engine.move_tables);
                    proof {
                        assert forall|d: int| 0 <= d < 128 implies start.playable(&tables, #[trigger] query_move(tables, model, t, d))
                            == self.current_position.playable(&tables, query_move(tables, model, t, d)) by {
                            assert(pre.playable(&tables, query_move(tables, model, t, d)) == self.current_position.playable(&tables, query_move(tables, model, t, d)));
                        }
                    }
                    if !playable {
                        let ghost prev = pseudo_moves@;
                        pseudo_moves.flip_bit_at_tile_index(destination_tile);
                        proof {
                            assert(prev.contains(destination_tile.0 as int));
                            assert(pseudo_moves@ =~= Set::new(
                                |d: int| options.contains(d) && (remaining@.contains(d) || start.playable(&tables, query_move(tables, model, t, d))),
                            ));
                        }
                    } else {
                        proof {
                            assert(pseudo_moves@ =~= Set::new(
                                |d: int| options.contains(d) && (remaining@.contains(d) || start.playable(&tables, query_move(tables, model, t, d))),
                            ));
                        }
                    }
                },
            }
        }
        pseudo_moves
    }
}


/// A player's input moving a pawn of the player to move onto one of that
/// player's promotion tiles (not held by the player) promotes the pawn to a
/// queen: the move asks for a queen, and once it is made a queen of the
/// player, and no pawn of the player, stands on the destination.
pub proof fn lemma_input_promotes_to_queen(tables: MoveTables, model: PositionModel, s: int, d: int)
    requires
        model.wf(),
        0 <= s < 128,
        0 <= d < 128,
        model.piece_index_at(model.player(), s) == Some(5int),
        tables.pawn_tables_of(model.active_player).promotion_board@.contains(d),
        !union_of(model.boards[model.player()]).contains(d),
    ensures
        input_move(tables, model, s, d) matches Some(m) && m.promotion == Some(PieceType::Queen)
            && model.after_make(m).boards[model.player()][1]@.contains(d)
            && !model.after_make(m).boards[model.player()][5]@.contains(d),
{
    let p = model.player();
    let b = model.boards[p];
    let m = input_move(tables, model, s, d)->0;
    crate::piece_set::lemma_first_board_from(b, s, 0);
    assert(b[5]@.contains(s));
    assert(union_of(b).contains(s));
    assert(s != d);
    assert(m.promotion == Some(PieceType::Queen));
    assert(model.moving_index(m) == 5);
    let once = crate::piece_set::flipped(b[5], s);
    let moved = crate::position::flip_at(crate::position::flip_at(b, 5, s), 5, d);
    assert(moved[1] == b[1]);
    assert(moved[5] == crate::piece_set::flipped(once, d));
    let mb = model.mover_boards_after(m);
    assert(mb == crate::position::flip_at(crate::position::flip_at(moved, 5, d), 1, d));
    assert(!b[1]@.contains(d));
    assert(!b[5]@.contains(d));
    crate::piece_set::lemma_flip_contains(b[1], d, d);
    crate::piece_set::lemma_flip_contains(b[5], s, d);
    crate::piece_set::lemma_flip_contains(once, d, d);
    crate::piece_set::lemma_flip_contains(moved[5], d, d);
    assert(mb[1] == crate::piece_set::flipped(b[1], d));
    assert(mb[5] == crate::piece_set::flipped(moved[5], d));
    assert(model.after_make(m).boards[p] == mb);
}

/// The move tried for an offered tile promotes a pawn of the player to move
/// that reaches one of that player's promotion tiles to a queen, and
/// promotes no other piece of that player.
pub proof fn lemma_query_promotes_to_queen(tables: MoveTables, model: PositionModel, t: int, d: int)
    requires
        model.wf(),
        model.piece_index_at(model.player(), t) is Some,
    ensures
        query_move(tables, model, t, d).promotion == (if model.piece_index_at(model.player(), t) == Some(5int)
            && tables.pawn_tables_of(model.active_player).promotion_board@.contains(d) {
            Some(PieceType::Queen)
        } else {
            None
        }),
{
    let p = model.player();
    let k = model.piece_index_at(p, t)->0;
    crate::piece_set::lemma_first_board_from(model.boards[0], t, 0);
    crate::piece_set::lemma_first_board_from(model.boards[1], t, 0);
    assert(model.boards[p][k]@.contains(t));
    assert(union_of(model.boards[p]).contains(t));
    if p == 1 {
        if model.piece_index_at(0, t) is Some {
            let j = model.piece_index_at(0, t)->0;
            assert(model.boards[0][j]@.contains(t));
            assert(union_of(model.boards[0]).contains(t));
        }
    } else {
        if model.piece_index_at(1, t) is Some {
            let j = model.piece_index_at(1, t)->0;
            assert(model.boards[1][j]@.contains(t));
            assert(union_of(model.boards[1]).contains(t));
        }
    }
    assert(selected_piece(model, t) == Some(k));
    assert(side_at(model, t) == model.active_player);
}

/// Every tile a piece of the player to move is offered can be tested as a
/// move: it is not one of that player's own tiles, and only a pawn promotes,
/// to a queen.
proof fn lemma_query_move_testable(tables: MoveTables, start: Position, t: int, d: int)
    requires
        tables.wf(),
        start.wf(),
        tables.moves_ok(start.model()),
        0 <= t < tables.num_tiles(),
        0 <= d < 128,
        tile_options(tables, start.model(), t).contains(d),
    ensures
        start.playable_testable(&tables, query_move(tables, start.model(), t, d)),
{
    let model = start.model();
    let p = model.player();
    crate::piece_set::lemma_first_board_from(model.boards[0], t, 0);
    crate::piece_set::lemma_first_board_from(model.boards[1], t, 0);
    if model.piece_index_at(p, t) is Some {
        let k = model.piece_index_at(p, t)->0;
        assert(model.boards[p][k]@.contains(t));
        assert(union_of(model.boards[p]).contains(t));
        if p == 1 {
            if model.piece_index_at(0, t) is Some {
                let j = model.piece_index_at(0, t)->0;
                assert(model.boards[0][j]@.contains(t));
                assert(union_of(model.boards[0]).contains(t));
            }
            assert(selected_piece(model, t) == Some(k));
            assert(side_at(model, t) == model.active_player);
        } else {
            if model.piece_index_at(1, t) is Some {
                let j = model.piece_index_at(1, t)->0;
                assert(model.boards[1][j]@.contains(t));
                assert(union_of(model.boards[1]).contains(t));
            }
            assert(selected_piece(model, t) == Some(k));
            assert(side_at(model, t) == model.active_player);
        }
        if k == 5 {
            let occ_set = union_of(model.boards[0]).union(union_of(model.boards[1]));
            assert forall|x: int| occ_set.contains(x) implies 0 <= x < 128 by {
                if union_of(model.boards[0]).contains(x) {
                    let j = choose|j: int| 0 <= j < 6 && #[trigger] model.boards[0][j]@.contains(x);
                    lemma_board_finite(model.boards[0][j]);
                    assert(vstd::set_lib::set_int_range(0, 128).contains(x));
                } else {
                    let j = choose|j: int| 0 <= j < 6 && #[trigger] model.boards[1][j]@.contains(x);
                    lemma_board_finite(model.boards[1][j]);
                    assert(vstd::set_lib::set_int_range(0, 128).contains(x));
                }
            }
            lemma_board_of(occ_set);
            let opp = union_of(model.boards[1 - p]);
            assert forall|x: int| opp.contains(x) implies 0 <= x < 128 by {
                assert(occ_set.contains(x));
            }
            lemma_board_of(opp);
            assert(!union_of(model.boards[p]).contains(d)) by {
                if union_of(model.boards[p]).contains(d) {
                    assert(occ_set.contains(d));
                    assert(!opp.contains(d));
                }
            }
        }
    }
}

impl Game {
    /// Plays the move a player's input from `source_tile` to
    /// `destination_tile` stands for, if it is playable. The destination is
    /// assumed valid, as the tiles offered for selection are: when the player
    /// to move has a piece on the source tile, the destination is not one of
    /// that player's own tiles (see `Position::playable_testable`).
    pub fn attempt_move_input(&mut self, source_tile: &TileIndex, destination_tile: &TileIndex) -> (r: Result<(), ChessError>)
        requires
            old(self).engine.move_tables.wf(),
            old(self).current_position.wf(),
            source_tile.0 < old(self).engine.move_tables.num_tiles(),
            destination_tile.0 < 128,
            old(self).engine.move_tables.moves_ok(old(self).current_position.model()),
            ({
                let model = old(self).current_position.model();
                model.piece_index_at(model.player(), source_tile.0 as int) is Some ==> !union_of(
                    model.boards[model.player()],
                ).contains(destination_tile.0 as int)
            }),
        ensures
            final(self).engine == old(self).engine,
            match input_move(
                old(self).engine.move_tables,
                old(self).current_position.model(),
                source_tile.0 as int,
                destination_tile.0 as int,
            ) {
                Some(m) => if old(self).current_position.playable(&old(self).engine.move_tables, m) {
                    &&& r == Ok::<(), ChessError>(())
                    &&& Position::made(old(self).current_position, final(self).current_position, m)
                } else {
                    &&& r == Err::<(), ChessError>(ChessError::InvalidMoveError)
                    &&& final(self).current_position.model() == old(self).current_position.model()
                    &&& final(self).current_position.wf()
                },
                None => {
                    &&& r == Err::<(), ChessError>(ChessError::InvalidMoveError)
                    &&& final(self).current_position == old(self).current_position
                },
            },
    {
        let chess_move = match self.parse_move_input(source_tile, destination_tile) {
            Ok(m) => m,
            Err(e) => {
                return Err(e);
            },
        };
        let ghost model = self.current_position.model();
        proof {
            assert(self.current_position.playable_testable(&self.engine.move_tables, chess_move));
        }
        if self.current_position.is_playable_move(&chess_move, &self.engine.move_tables) {
            proof {
                let tables = self.engine.move_tables;
                let s = chess_move.source_tile.0 as int;
                assert(model.piece_index_at(model.player(), s) is Some);
                assert(tables.legal_ok(model, chess_move));
            }
            self.current_position.make_legal_move(&chess_move);
            Ok(())
        } else {
            Err(ChessError::InvalidMoveError)
        }
    }

    /// The move a player's input stands for (see `input_move`); an error
    /// when the player to move has no piece on the source tile.
    fn parse_move_input(&self, source_tile: &TileIndex, destination_tile: &TileIndex) -> (r: Result<Move, ChessError>)
        requires
            self.engine.move_tables.wf(),
            self.current_position.wf(),
            source_tile.0 < self.engine.move_tables.num_tiles(),
            destination_tile.0 < 128,
        ensures
            r == match input_move(
                self.engine.move_tables,
                self.current_position.model(),
                source_tile.0 as int,
                destination_tile.0 as int,
            ) {
                Some(m) => Ok::<Move, ChessError>(m),
                None => Err(ChessError::InvalidMoveError),
            },
    {
        let ghost model = self.current_position.model();
        let ghost tables = self.engine.move_tables;
        let active_pieces = &self.current_position.pieces[self.current_position.active_player.as_idx()];
        proof {
            assert(active_pieces.piece_boards@ == model.boards[model.player()]);
            crate::piece_set::lemma_first_board_from(model.boards[model.player()], source_tile.0 as int, 0);
        }
        let selected = active_pieces.get_piece_at(source_tile);
        let en_passant_data = match selected {
            Some(PieceType::Pawn) => {
                match self.engine.move_tables.check_en_passantable(&Color::White, *source_tile) {
                    Some(e) => Some(e),
                    None => self.engine.move_tables.check_en_passantable(&Color::Black, *source_tile),
                }
            },
            None => {
                return Err(ChessError::InvalidMoveError);
            },
            _ => None,
        };
        let en_passant_data = match en_passant_data {
            Some(epd) => if epd.occupied_tile != *destination_tile {
                None
            } else {
                Some(epd)
            },
            None => None,
        };
        let mut promotion: Option<PieceType> = None;
        if selected == Some(PieceType::Pawn) {
            let promotion_board = match self.current_position.active_player.as_idx() {
                0 => self.engine.move_tables.white_pawn_tables.promotion_board,
                _ => self.engine.move_tables.black_pawn_tables.promotion_board,
            };
            if promotion_board.get_bit_at_tile(destination_tile) {
                promotion = Some(PieceType::Queen);
            }
        }
        proof {
            let k = model.piece_index_at(model.player(), source_tile.0 as int)->0;
            assert((selected == Some(PieceType::Pawn)) == (k == 5));
        }
        Ok(Move::from_input(*source_tile, *destination_tile, promotion, en_passant_data))
    }
}

} // verus!
