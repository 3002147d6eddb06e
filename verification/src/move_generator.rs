use vstd::prelude::*;

use crate::bit_board::{
    BitBoard, BitBoardMoves, board_of, lemma_board_of, lemma_board_ops, lowest_tile,
    lemma_lowest_tile, moves_to_tiles, tile_moves, spec_move, lemma_board_finite,
};
use crate::piece_set::{first_board_from, flipped, lemma_first_board_from, lemma_flip_contains};
use crate::chess_move::{EnPassantData, Move};
use crate::graph_boards::graph_board::TileIndex;
use crate::movement_tables::{JumpTable, PawnTables, SlideTables, rows_within};
use crate::piece_set::{Color, PieceType, piece_type_of};
use crate::position::{Position, PositionModel, union_of};

verus! {

/// The table has one board per tile and reaches only tiles below `n`.
pub open spec fn jump_ok(t: JumpTable, n: int) -> bool {
    t.0@.len() == n && rows_within(t.0@, n)
}

/// The pawn tables cover `n` tiles, every tile's double-step map knows the
/// moves without blockers, and a pawn that can step twice from a tile can
/// also step once.
pub open spec fn pawn_ok(p: PawnTables, n: int) -> bool {
    &&& jump_ok(p.single_table, n)
    &&& jump_ok(p.attack_table, n)
    &&& forall|t: int| 0 <= t < n ==> (#[trigger] p.double_table.0@[t])@.contains_key(0u128)
    &&& p.double_table.0@.len() == n
    &&& rows_within(p.double_table.unblocked_rows(), n)
    &&& forall|t: int|
        0 <= t < n && #[trigger] p.double_table.unblocked_rows()[t]@ != Set::<int>::empty()
            ==> p.single_table.0@[t]@ != Set::<int>::empty()
}

/// The concatenation, over the tiles of `tiles` from `lo` on in increasing
/// order, of `f` applied to each tile.
pub open spec fn concat_over(tiles: Set<int>, lo: int, f: spec_fn(int) -> Seq<Move>) -> Seq<Move>
    decreases 128 - lo,
{
    if lo < 0 || lo >= 128 {
        Seq::empty()
    } else {
        (if tiles.contains(lo) {
            f(lo)
        } else {
            Seq::empty()
        }) + concat_over(tiles, lo + 1, f)
    }
}

proof fn lemma_concat_over_agree(a: Set<int>, b: Set<int>, lo: int, f: spec_fn(int) -> Seq<Move>)
    requires
        0 <= lo,
        forall|i: int| lo <= i < 128 ==> a.contains(i) == b.contains(i),
    ensures
        concat_over(a, lo, f) == concat_over(b, lo, f),
    decreases 128 - lo,
{
    if lo < 128 {
        lemma_concat_over_agree(a, b, lo + 1, f);
    }
}

proof fn lemma_concat_over_lowest(tiles: Set<int>, lo: int, t: int, f: spec_fn(int) -> Seq<Move>)
    requires
        0 <= lo <= t < 128,
        tiles.contains(t),
        forall|i: int| lo <= i < t ==> !tiles.contains(i),
    ensures
        concat_over(tiles, lo, f) == f(t) + concat_over(tiles.remove(t), lo, f),
    decreases t - lo,
{
    if lo == t {
        lemma_concat_over_agree(tiles, tiles.remove(t), t + 1, f);
        assert(concat_over(tiles.remove(t), lo, f) =~= concat_over(tiles.remove(t), lo + 1, f));
    } else {
        lemma_concat_over_lowest(tiles, lo + 1, t, f);
        assert(!tiles.remove(t).contains(lo));
        assert(concat_over(tiles, lo, f) =~= concat_over(tiles, lo + 1, f));
        assert(concat_over(tiles.remove(t), lo, f) =~= concat_over(tiles.remove(t), lo + 1, f));
    }
}

proof fn lemma_concat_over_none(tiles: Set<int>, lo: int, f: spec_fn(int) -> Seq<Move>)
    requires
        0 <= lo,
        forall|i: int| lo <= i < 128 ==> !tiles.contains(i),
    ensures
        concat_over(tiles, lo, f) == Seq::<Move>::empty(),
    decreases 128 - lo,
{
    if lo < 128 {
        lemma_concat_over_none(tiles, lo + 1, f);
    }
}

/// The movement tables of a board: for each piece, where it can go from each
/// tile, and the reverse tables used to find attackers.
pub struct MoveTables {
    pub king_table: JumpTable,
    pub slide_tables: SlideTables,
    pub knight_table: JumpTable,
    pub white_pawn_tables: PawnTables,
    pub black_pawn_tables: PawnTables,
    pub reverse_slide_tables: Vec<JumpTable>,
    pub reverse_knight_table: JumpTable,
    pub reverse_white_pawn_table: JumpTable,
    pub reverse_black_pawn_table: JumpTable,
}

impl MoveTables {
    /// The number of tiles of the board.
    pub open spec fn num_tiles(&self) -> int {
        self.king_table.0@.len() as int
    }

    /// All tables cover the same tiles, at most 128 of them, with at most
    /// 128 slide directions (as a board has).
    pub open spec fn wf(&self) -> bool {
        let n = self.num_tiles();
        &&& n <= 128
        &&& self.slide_tables.0@.len() <= 128
        &&& jump_ok(self.king_table, n)
        &&& jump_ok(self.knight_table, n)
        &&& self.slide_tables.wf(n)
        &&& pawn_ok(self.white_pawn_tables, n)
        &&& pawn_ok(self.black_pawn_tables, n)
        &&& self.reverse_slide_tables@.len() == self.slide_tables.0@.len()
        &&& forall|d: int|
            0 <= d < self.reverse_slide_tables@.len() ==> jump_ok(
                #[trigger] self.reverse_slide_tables@[d],
                n,
            )
        &&& jump_ok(self.reverse_knight_table, n)
        &&& jump_ok(self.reverse_white_pawn_table, n)
        &&& jump_ok(self.reverse_black_pawn_table, n)
    }

    pub open spec fn pawn_tables_of(&self, color: Color) -> PawnTables {
        match color {
            Color::White => self.white_pawn_tables,
            Color::Black => self.black_pawn_tables,
        }
    }

    /// Where a piece of board index `k` (not a pawn) can go from `tile`.
    pub open spec fn piece_moves(&self, k: int, tile: int, occupied: BitBoard) -> Set<int> {
        if k == 0 {
            self.king_table.0@[tile]@
        } else if k == 1 {
            self.slide_tables.query_spec(tile, occupied, true, true)
        } else if k == 2 {
            self.slide_tables.query_spec(tile, occupied, true, false)
        } else if k == 3 {
            self.slide_tables.query_spec(tile, occupied, false, true)
        } else if k == 4 {
            self.knight_table.0@[tile]@
        } else {
            Set::empty()
        }
    }

    /// Where a pawn can go from `tile`: a single step onto a free tile, a
    /// double step onto a free tile when the single step is free, an attack
    /// onto an enemy, and an attack onto the tile passed over by the last
    /// double step.
    pub open spec fn pawn_moves(
        &self,
        color: Color,
        tile: int,
        enemies: BitBoard,
        occupied: BitBoard,
        ep: Option<EnPassantData>,
    ) -> Set<int> {
        let t = self.pawn_tables_of(color);
        let single = t.single_table.0@[tile]@.difference(occupied@);
        let double = if single == Set::<int>::empty() {
            Set::<int>::empty()
        } else {
            t.double_table.unblocked_rows()[tile]@.difference(occupied@)
        };
        let attacks = t.attack_table.0@[tile]@.intersect(enemies@);
        let ep_attack = match ep {
            Some(e) => t.attack_table.0@[tile]@.intersect(set![e.passed_tile.0 as int]),
            None => Set::empty(),
        };
        single.union(double).union(attacks).union(ep_attack)
    }

    /// The en-passant data of a double step from `tile`, if the pawn has one.
    pub open spec fn en_passantable(&self, color: Color, tile: int) -> Option<EnPassantData> {
        let t = self.pawn_tables_of(color);
        let double = t.double_table.unblocked_rows()[tile]@;
        if double == Set::<int>::empty() {
            None
        } else {
            Some(
                EnPassantData {
                    source_tile: TileIndex(tile as usize),
                    passed_tile: TileIndex(lowest_tile(t.single_table.0@[tile]@) as usize),
                    occupied_tile: TileIndex(lowest_tile(double) as usize),
                },
            )
        }
    }

    /// Where a piece of board index `k` (not a pawn) can go.
    pub fn query_piece(&self, piece_type: &PieceType, source_tile: TileIndex, occupied: BitBoard) -> (r: BitBoard)
        requires
            self.wf(),
            source_tile.0 < self.num_tiles(),
        ensures
            r@ == self.piece_moves(piece_type.spec_idx(), source_tile.0 as int, occupied),
    {
        match piece_type {
            PieceType::King => self.king_table.get(source_tile),
            PieceType::Queen => self.slide_tables.query(&source_tile, &occupied, true, true),
            PieceType::Rook => self.slide_tables.query(&source_tile, &occupied, true, false),
            PieceType::Bishop => self.slide_tables.query(&source_tile, &occupied, false, true),
            PieceType::Knight => self.knight_table.get(source_tile),
            PieceType::Pawn => BitBoard::empty(),
        }
    }

    /// Where a pawn of the given colour can go.
    pub fn query_pawn(
        &self,
        color: &Color,
        source_tile: TileIndex,
        enemies: &BitBoard,
        occupied: BitBoard,
        current_ep_data: &Option<EnPassantData>,
    ) -> (r: BitBoard)
        requires
            self.wf(),
            source_tile.0 < self.num_tiles(),
            current_ep_data matches Some(e) ==> e.passed_tile.0 < 128,
        ensures
            r@ == self.pawn_moves(*color, source_tile.0 as int, *enemies, occupied, *current_ep_data),
    {
        let pawn_tables = match color {
            Color::White => &self.white_pawn_tables,
            Color::Black => &self.black_pawn_tables,
        };
        let single_row = pawn_tables.single_table.get(source_tile);
        let attack_row = pawn_tables.attack_table.get(source_tile);
        let mut all_moves = BitBoard::empty();
        let single_moves = single_row & BitBoard(!occupied.0);
        proof {
            lemma_board_ops(single_row, occupied);
            lemma_board_ops(all_moves, single_moves);
        }
        all_moves = all_moves | single_moves;
        let ghost after_single = all_moves@;
        if !single_moves.is_zero() {
            proof {
                assert(pawn_tables.double_table.0@[source_tile.0 as int]@.contains_key(0u128));
            }
            let double_row = pawn_tables.double_table.get(source_tile, &BitBoard::empty()).unwrap();
            proof {
                lemma_board_ops(double_row, occupied);
                lemma_board_ops(all_moves, BitBoard(double_row.0 & !occupied.0));
            }
            all_moves = all_moves | (double_row & BitBoard(!occupied.0));
        }
        proof {
            lemma_board_ops(attack_row, *enemies);
            lemma_board_ops(all_moves, BitBoard(attack_row.0 & enemies.0));
        }
        all_moves = all_moves | (attack_row & *enemies);
        match current_ep_data {
            Some(data) => {
                let mut tiles: Vec<u128> = Vec::new();
                tiles.push(data.passed_tile.index() as u128);
                proof {
                    assert(tiles@ == seq![data.passed_tile.0 as u128]);
                    assert(tiles@.drop_last() =~= Seq::<u128>::empty());
                    assert(tiles@.no_duplicates());
                    assert(crate::bit_board::sum_of_bits(tiles@.drop_last()) == 0);
                    assert(crate::bit_board::sum_of_bits(tiles@) == crate::bits::single_bit(
                        data.passed_tile.0 as int,
                    ));
                }
                let passed = BitBoard::from_ints(tiles);
                proof {
                    assert(passed@ =~= set![data.passed_tile.0 as int]) by {
                        assert forall|i: int| passed@.contains(i) <==> i == data.passed_tile.0 as int by {
                            if i == data.passed_tile.0 as int {
                                assert(tiles@[0] == i);
                            }
                        }
                    }
                    lemma_board_ops(attack_row, passed);
                    lemma_board_ops(all_moves, BitBoard(attack_row.0 & passed.0));
                }
                all_moves = all_moves | (attack_row & passed);
            },
            None => {},
        }
        proof {
            let spec_set = self.pawn_moves(*color, source_tile.0 as int, *enemies, occupied, *current_ep_data);
            assert(single_moves@ == Set::<int>::empty() <==> single_moves.0 == 0);
            assert(all_moves@ =~= spec_set);
        }
        all_moves
    }

    /// The en-passant data of a pawn's double step from `source_tile`, if it
    /// has one.
    pub fn check_en_passantable(&self, color: &Color, source_tile: TileIndex) -> (r: Option<EnPassantData>)
        requires
            self.wf(),
            source_tile.0 < self.num_tiles(),
        ensures
            r == self.en_passantable(*color, source_tile.0 as int),
    {
        let pawn_tables = match color {
            Color::White => &self.white_pawn_tables,
            Color::Black => &self.black_pawn_tables,
        };
        proof {
            assert(pawn_tables.double_table.0@[source_tile.0 as int]@.contains_key(0u128));
        }
        let double_row = pawn_tables.double_table.get(source_tile, &BitBoard::empty()).unwrap();
        proof {
            assert(double_row == pawn_tables.double_table.unblocked_rows()[source_tile.0 as int]);
        }
        match double_row.lowest_one() {
            Some(piece_tile) => {
                let single_row = pawn_tables.single_table.get(source_tile);
                let capturable_tile = single_row.lowest_one().unwrap();
                proof {
                    lemma_lowest_tile(single_row@, capturable_tile.0 as int);
                    lemma_lowest_tile(double_row@, piece_tile.0 as int);
                }
                Some(EnPassantData { source_tile, passed_tile: capturable_tile, occupied_tile: piece_tile })
            },
            None => None,
        }
    }
}

impl MoveTables {
    /// The player to move's pieces stand on tiles of this board, and the
    /// tile passed over by the last double step is a tile index below 128.
    pub open spec fn position_fits(&self, model: PositionModel) -> bool {
        &&& model.boards.len() == 2
        &&& forall|c: int| 0 <= c < 2 ==> (#[trigger] model.boards[c]).len() == 6
        &&& forall|k: int, t: int|
            0 <= k < 6 && #[trigger] model.boards[model.player()][k]@.contains(t) ==> 0 <= t
                < self.num_tiles()
        &&& (model.record.en_passant_data matches Some(e) ==> e.passed_tile.0 < 128)
    }

    /// The occupied tiles of both players, as a board.
    pub open spec fn all_occupied(model: PositionModel) -> BitBoard {
        board_of(union_of(model.boards[model.opponent()]).union(union_of(model.boards[model.player()])))
    }

    /// The moves of the piece of board index `k` on tile `src`, in the order
    /// they are generated.
    pub open spec fn square_moves(&self, model: PositionModel, k: int, src: int) -> Seq<Move> {
        let c = model.active_player;
        let own = union_of(model.boards[model.player()]);
        let enemies = board_of(union_of(model.boards[model.opponent()]));
        let occ = Self::all_occupied(model);
        let raw = if k == 5 {
            self.pawn_moves(c, src, enemies, occ, model.record.en_passant_data)
        } else {
            self.piece_moves(k, src, occ)
        };
        let ep = if k == 5 {
            self.en_passantable(c, src)
        } else {
            None
        };
        let promo = if k == 5 {
            self.pawn_tables_of(c).promotion_board
        } else {
            BitBoard(0)
        };
        moves_to_tiles(TileIndex(src as usize), k == 5, raw.difference(own), ep, promo, 0)
    }

    pub open spec fn piece_type_moves(&self, model: PositionModel, k: int) -> Seq<Move> {
        concat_over(model.boards[model.player()][k]@, 0, |src: int| self.square_moves(model, k, src))
    }

    pub open spec fn pseudo_moves_from(&self, model: PositionModel, k: int) -> Seq<Move>
        decreases 6 - k,
    {
        if k < 0 || k >= 6 {
            Seq::empty()
        } else {
            self.piece_type_moves(model, k) + self.pseudo_moves_from(model, k + 1)
        }
    }

    /// The moves of the player to move, ignoring whether they leave the own
    /// king attacked: piece type by piece type (king first, pawns last), tile
    /// by tile.
    pub open spec fn pseudo_moves(&self, model: PositionModel) -> Seq<Move> {
        self.pseudo_moves_from(model, 0)
    }

    /// The moves of the player to move, ignoring whether they leave the own
    /// king attacked.
    pub fn get_pseudo_moves(&self, position: &Position) -> (r: Vec<Move>)
        requires
            self.wf(),
            position.wf(),
            self.position_fits(position.model()),
        ensures
            r@ == self.pseudo_moves(position.model()),
    {
        let ghost model = position.model();
        let active_player = position.active_player;
        let player_idx = active_player.as_idx();
        let opponent_idx = active_player.opponent().as_idx();
        let active_pieces = &position.pieces[player_idx];
        let enemy_occupants = position.pieces[opponent_idx].occupied;
        let all_occupants = enemy_occupants | active_pieces.occupied;
        let current_ep = position.record.en_passant_data;
        proof {
            crate::position::lemma_union_of_boards(position.pieces@[0]);
            crate::position::lemma_union_of_boards(position.pieces@[1]);
            assert(position.pieces@[player_idx as int].piece_boards@ == model.boards[model.player()]);
            assert(position.pieces@[opponent_idx as int].piece_boards@ == model.boards[model.opponent()]);
            lemma_board_ops(enemy_occupants, active_pieces.occupied);
            crate::bit_board::lemma_board_finite(all_occupants);
            crate::bit_board::lemma_board_finite(enemy_occupants);
            lemma_board_of(all_occupants@);
            lemma_board_of(enemy_occupants@);
            assert(all_occupants == Self::all_occupied(model));
            assert(enemy_occupants == board_of(union_of(model.boards[model.opponent()])));
        }
        let mut result: Vec<Move> = Vec::new();
        let mut piece_idx: usize = 0;
        while piece_idx < 6
            invariant
                self.wf(),
                position.wf(),
                self.position_fits(model),
                model == position.model(),
                player_idx == model.player(),
                active_pieces == position.pieces@[player_idx as int],
                active_pieces.piece_boards@ == model.boards[model.player()],
                active_pieces.occupied@ == union_of(model.boards[model.player()]),
                all_occupants == Self::all_occupied(model),
                enemy_occupants == board_of(union_of(model.boards[model.opponent()])),
                current_ep == model.record.en_passant_data,
                active_player == model.active_player,
                piece_idx <= 6,
                result@ + self.pseudo_moves_from(model, piece_idx as int) == self.pseudo_moves(model),
            decreases 6 - piece_idx,
        {
            let piece_type = PieceType::from_idx(piece_idx);
            let mut piece_board = active_pieces.piece_boards[piece_idx];
            let ghost k = piece_idx as int;
            let ghost f = |src: int| self.square_moves(model, k, src);
            proof {
                crate::bit_board::lemma_board_finite(piece_board);
                assert(self.pseudo_moves_from(model, k) == self.piece_type_moves(model, k) + self.pseudo_moves_from(model, k + 1));
                assert(result@ + concat_over(piece_board@, 0, f) + self.pseudo_moves_from(model, k + 1) == self.pseudo_moves(model));
            }
            loop
                invariant
                    self.wf(),
                    position.wf(),
                    self.position_fits(model),
                    model == position.model(),
                    player_idx == model.player(),
                    piece_idx < 6,
                    k == piece_idx,
                    piece_type == piece_type_of(k),
                    f == (|src: int| self.square_moves(model, k, src)),
                    active_pieces == position.pieces@[player_idx as int],
                    active_pieces.piece_boards@ == model.boards[model.player()],
                    active_pieces.occupied@ == union_of(model.boards[model.player()]),
                    all_occupants == Self::all_occupied(model),
                    enemy_occupants == board_of(union_of(model.boards[model.opponent()])),
                    current_ep == model.record.en_passant_data,
                    active_player == model.active_player,
                    piece_board@.finite(),
                    piece_board@.subset_of(model.boards[model.player()][k]@),
                    result@ + concat_over(piece_board@, 0, f) + self.pseudo_moves_from(model, k + 1)
                        == self.pseudo_moves(model),
                ensures
                    result@ + self.pseudo_moves_from(model, k + 1) == self.pseudo_moves(model),
                decreases piece_board@.len(),
            {
                if piece_board.is_zero() {
                    proof {
                        lemma_concat_over_none(piece_board@, 0, f);
                        assert(result@ + Seq::<Move>::empty() =~= result@);
                    }
                    break;
                }
                let source_tile = piece_board.lowest_one().unwrap();
                let ghost src = source_tile.0 as int;
                proof {
                    assert(model.boards[model.player()][k]@.contains(src));
                    lemma_concat_over_lowest(piece_board@, 0, src, f);
                }
                let mut promotable_tiles = BitBoard::empty();
                let mut next_ep_data = None;
                let raw_attacks = if piece_idx == 5 {
                    next_ep_data = self.check_en_passantable(&active_player, source_tile);
                    promotable_tiles = match active_player {
                        Color::White => self.white_pawn_tables.promotion_board,
                        Color::Black => self.black_pawn_tables.promotion_board,
                    };
                    self.query_pawn(&active_player, source_tile, &enemy_occupants, all_occupants, &current_ep)
                } else {
                    self.query_piece(&piece_type, source_tile, all_occupants)
                };
                let attacks = raw_attacks & BitBoard(!active_pieces.occupied.0);
                proof {
                    lemma_board_ops(raw_attacks, active_pieces.occupied);
                    if piece_idx != 5 {
                        assert(piece_type.spec_idx() == k);
                    }
                }
                let mut moves = BitBoardMoves::new(source_tile, piece_idx == 5, attacks, next_ep_data, promotable_tiles);
                proof {
                    assert(TileIndex(src as usize) == source_tile);
                    assert(moves.pending() == f(src));
                }
                let ghost rest = concat_over(piece_board@.remove(src), 0, f) + self.pseudo_moves_from(model, k + 1);
                proof {
                    assert(result@ + moves.pending() + rest == self.pseudo_moves(model));
                }
                loop
                    invariant
                        moves.wf(),
                        result@ + moves.pending() + rest == self.pseudo_moves(model),
                    ensures
                        result@ + rest == self.pseudo_moves(model),
                    decreases moves.pending().len(),
                {
                    let ghost before = moves.pending();
                    match moves.next() {
                        Some(m) => {
                            let ghost old_result = result@;
                            result.push(m);
                            proof {
                                assert(before == seq![m] + before.drop_first());
                                assert(result@ + moves.pending() + rest =~= old_result + before + rest);
                            }
                        },
                        None => {
                            proof {
                                assert(result@ + moves.pending() =~= result@);
                            }
                            break;
                        },
                    }
                }
                piece_board.flip_bit_at_tile_index(source_tile);
                proof {
                    assert(result@ + concat_over(piece_board@, 0, f) + self.pseudo_moves_from(model, k + 1)
                        =~= self.pseudo_moves(model));
                }
            }
            piece_idx = piece_idx + 1;
        }
        proof {
            assert(self.pseudo_moves_from(model, 6) == Seq::<Move>::empty());
            assert(result@ =~= self.pseudo_moves(model));
        }
        result
    }
}

impl MoveTables {
    /// The reverse pawn table that finds the enemy pawns attacking a king of
    /// colour `color`.
    pub open spec fn pawn_threats(&self, color: Color) -> JumpTable {
        match color {
            Color::White => self.reverse_black_pawn_table,
            Color::Black => self.reverse_white_pawn_table,
        }
    }

    /// An enemy slider (`ka` or `kb`, board indices) on a tile from which the
    /// reverse table of a direction of parity `parity` reaches the king
    /// attacks it along the selected lines.
    pub open spec fn slider_check(
        &self,
        model: PositionModel,
        color: Color,
        parity: int,
        ka: int,
        kb: int,
        orthogonals: bool,
        diagonals: bool,
    ) -> bool {
        let opp = model.boards[color.spec_opponent().spec_idx()];
        let king = lowest_tile(model.boards[color.spec_idx()][0]@);
        let all = board_of(union_of(opp).union(union_of(model.boards[color.spec_idx()])));
        exists|d: int, cand: int|
            #![trigger self.reverse_slide_tables@[d].0@[king]@.contains(cand)]
            0 <= d < self.reverse_slide_tables@.len() && d % 2 == parity
                && self.reverse_slide_tables@[d].0@[king]@.contains(cand) && (opp[ka]@.contains(cand)
                || opp[kb]@.contains(cand)) && self.slide_tables.query_spec(
                cand,
                all,
                orthogonals,
                diagonals,
            ).contains(king)
    }

    /// The king of colour `color` is attacked: by a rook or queen along an
    /// orthogonal, a bishop or queen along a diagonal, a knight, or a pawn.
    pub open spec fn in_check(&self, model: PositionModel, color: Color) -> bool {
        let opp = model.boards[color.spec_opponent().spec_idx()];
        let king = lowest_tile(model.boards[color.spec_idx()][0]@);
        ||| self.slider_check(model, color, 0, 2, 1, true, false)
        ||| self.slider_check(model, color, 1, 3, 1, false, true)
        ||| exists|t: int| self.reverse_knight_table.0@[king]@.contains(t) && #[trigger] opp[4]@.contains(t)
        ||| exists|t: int| self.pawn_threats(color).0@[king]@.contains(t) && #[trigger] opp[5]@.contains(t)
    }

    /// The conditions under which the check test runs to its end: the king
    /// is on the board.
    pub open spec fn in_check_ok(&self, model: PositionModel, color: Color) -> bool {
        &&& model.boards.len() == 2
        &&& forall|c: int| 0 <= c < 2 ==> (#[trigger] model.boards[c]).len() == 6
        &&& model.boards[color.spec_idx()][0]@ != Set::<int>::empty()
        &&& lowest_tile(model.boards[color.spec_idx()][0]@) < self.num_tiles()
    }
}

impl Position {
    /// Whether the king of the given colour is attacked.
    pub fn is_in_check(&self, move_tables: &MoveTables, color: &Color) -> (r: bool)
        requires
            move_tables.wf(),
            self.pieces@[0].occupied_consistent(),
            self.pieces@[1].occupied_consistent(),
            move_tables.in_check_ok(self.model(), *color),
        ensures
            r == move_tables.in_check(self.model(), *color),
    {
        let ghost model = self.model();
        let own_idx = color.as_idx();
        let opponent_idx = color.opponent().as_idx();
        let king_tile = self.pieces[own_idx].piece_boards[PieceType::King.as_idx()].lowest_one().unwrap();
        let ghost king = king_tile.0 as int;
        proof {
            lemma_lowest_tile(model.boards[own_idx as int][0]@, king);
            crate::position::lemma_union_of_boards(self.pieces@[0]);
            crate::position::lemma_union_of_boards(self.pieces@[1]);
        }
        let enemy_occupants = self.pieces[opponent_idx].occupied;
        let all_occupants = enemy_occupants | self.pieces[own_idx].occupied;
        proof {
            lemma_board_ops(enemy_occupants, self.pieces@[own_idx as int].occupied);
            crate::bit_board::lemma_board_finite(all_occupants);
            lemma_board_of(all_occupants@);
            assert(self.pieces@[opponent_idx as int].piece_boards@ == model.boards[color.spec_opponent().spec_idx()]);
            assert(all_occupants == board_of(
                union_of(model.boards[color.spec_opponent().spec_idx()]).union(union_of(model.boards[color.spec_idx()])),
            ));
        }
        let opp = &self.pieces[opponent_idx];
        let orth_pieces = opp.piece_boards[2] | opp.piece_boards[1];
        let diag_pieces = opp.piece_boards[3] | opp.piece_boards[1];
        proof {
            lemma_board_ops(opp.piece_boards[2], opp.piece_boards[1]);
            lemma_board_ops(opp.piece_boards[3], opp.piece_boards[1]);
        }
        if self.slider_attack(move_tables, king_tile, orth_pieces, all_occupants, 0, true, false) {
            return true;
        }
        if self.slider_attack(move_tables, king_tile, diag_pieces, all_occupants, 1, false, true) {
            return true;
        }
        let knights = move_tables.reverse_knight_table.get(king_tile) & opp.piece_boards[4];
        proof {
            lemma_board_ops(move_tables.reverse_knight_table.0@[king], opp.piece_boards[4]);
        }
        if !knights.is_zero() {
            proof {
                let t = crate::bits::lemma_nonzero_has_bit(knights.0);
                assert(knights@.contains(t));
            }
            return true;
        }
        let pawn_threats = match color {
            Color::White => &move_tables.reverse_black_pawn_table,
            Color::Black => &move_tables.reverse_white_pawn_table,
        };
        let pawns = pawn_threats.get(king_tile) & opp.piece_boards[5];
        proof {
            lemma_board_ops(pawn_threats.0@[king], opp.piece_boards[5]);
        }
        if !pawns.is_zero() {
            proof {
                let t = crate::bits::lemma_nonzero_has_bit(pawns.0);
                assert(pawns@.contains(t));
            }
            return true;
        }
        proof {
            assert forall|t: int| !(move_tables.reverse_knight_table.0@[king]@.contains(t) && #[trigger] opp.piece_boards@[4]@.contains(t)) by {
                assert(!knights@.contains(t));
            }
            assert forall|t: int| !(pawn_threats.0@[king]@.contains(t) && #[trigger] opp.piece_boards@[5]@.contains(t)) by {
                assert(!pawns@.contains(t));
            }
        }
        false
    }

    /// Whether an enemy slider among `candidates` attacks `king_tile` along a
    /// direction of the given parity.
    fn slider_attack(
        &self,
        move_tables: &MoveTables,
        king_tile: TileIndex,
        candidates: BitBoard,
        all_occupants: BitBoard,
        parity: usize,
        orthogonals: bool,
        diagonals: bool,
    ) -> (r: bool)
        requires
            move_tables.wf(),
            king_tile.0 < move_tables.num_tiles(),
            parity < 2,
        ensures
            r == exists|d: int, cand: int|
                #![trigger move_tables.reverse_slide_tables@[d].0@[king_tile.0 as int]@.contains(cand)]
                0 <= d < move_tables.reverse_slide_tables@.len() && d % 2 == parity
                    && move_tables.reverse_slide_tables@[d].0@[king_tile.0 as int]@.contains(cand)
                    && candidates@.contains(cand) && move_tables.slide_tables.query_spec(
                    cand,
                    all_occupants,
                    orthogonals,
                    diagonals,
                ).contains(king_tile.0 as int),
    {
        let ghost king = king_tile.0 as int;
        let len = move_tables.reverse_slide_tables.len();
        let mut d: usize = parity;
        while d < len
            invariant
                move_tables.wf(),
                king_tile.0 < move_tables.num_tiles(),
                king == king_tile.0,
                len == move_tables.reverse_slide_tables@.len(),
                parity < 2,
                d < len ==> d % 2 == parity,
                forall|dd: int, cand: int|
                    #![trigger move_tables.reverse_slide_tables@[dd].0@[king]@.contains(cand)]
                    0 <= dd < d && dd < len && dd % 2 == parity ==> !(
                    move_tables.reverse_slide_tables@[dd].0@[king]@.contains(cand)
                        && candidates@.contains(cand) && move_tables.slide_tables.query_spec(
                        cand,
                        all_occupants,
                        orthogonals,
                        diagonals,
                    ).contains(king)),
            decreases len - d,
        {
            let reverse_row = move_tables.reverse_slide_tables[d].get(king_tile);
            let found = reverse_row & candidates;
            proof {
                lemma_board_ops(reverse_row, candidates);
            }
            let mut tiles = crate::bit_board::BitBoardTiles::new(found);
            loop
                invariant
                    move_tables.wf(),
                    king_tile.0 < move_tables.num_tiles(),
                    king == king_tile.0,
                    d < len,
                    d % 2 == parity,
                    len == move_tables.reverse_slide_tables@.len(),
                    reverse_row == move_tables.reverse_slide_tables@[d as int].0@[king],
                    found@ == reverse_row@.intersect(candidates@),
                    tiles@.finite(),
                    tiles@.subset_of(found@),
                    forall|cand: int|
                        found@.contains(cand) && !tiles@.contains(cand) ==> !move_tables.slide_tables.query_spec(
                            cand,
                            all_occupants,
                            orthogonals,
                            diagonals,
                        ).contains(king),
                ensures
                    forall|cand: int|
                        found@.contains(cand) ==> !move_tables.slide_tables.query_spec(
                            cand,
                            all_occupants,
                            orthogonals,
                            diagonals,
                        ).contains(king),
                decreases tiles@.len(),
            {
                let ghost before_tiles = tiles@;
                match tiles.next() {
                    None => {
                        break ;
                    },
                    Some(candidate) => {
                        proof {
                            assert(jump_ok(move_tables.reverse_slide_tables@[d as int], move_tables.num_tiles()));
                            assert(candidate.0 < move_tables.num_tiles());
                            assert(move_tables.slide_tables.covers(candidate.0 as int));
                        }
                        if move_tables.slide_tables.query(&candidate, &all_occupants, orthogonals, diagonals).get_bit_at_tile(&king_tile) {
                            proof {
                                assert(found@.contains(candidate.0 as int));
                                assert(move_tables.reverse_slide_tables@[d as int].0@[king]@.contains(candidate.0 as int));
                                assert(candidates@.contains(candidate.0 as int));
                                let dd = d as int;
                                let cc = candidate.0 as int;
                                assert(dd % 2 == parity);
                                assert(move_tables.slide_tables.query_spec(cc, all_occupants, orthogonals, diagonals).contains(king_tile.0 as int));
                                assert(0 <= dd < move_tables.reverse_slide_tables@.len() && dd % 2 == parity
                                    && move_tables.reverse_slide_tables@[dd].0@[king_tile.0 as int]@.contains(cc)
                                    && candidates@.contains(cc) && move_tables.slide_tables.query_spec(
                                    cc,
                                    all_occupants,
                                    orthogonals,
                                    diagonals,
                                ).contains(king_tile.0 as int));
                            }
                            return true;
                        }
                    },
                }
            }
            let ghost old_d = d;
            if len - d <= 2 {
                d = len;
            } else {
                d = d + 2;
            }
            proof {
                assert forall|dd: int, cand: int|
                    0 <= dd < d && dd < len && dd % 2 == parity && #[trigger] move_tables.reverse_slide_tables@[dd].0@[king]@.contains(cand)
                        && candidates@.contains(cand) implies !move_tables.slide_tables.query_spec(
                        cand,
                        all_occupants,
                        orthogonals,
                        diagonals,
                    ).contains(king) by {
                    if dd == old_d {
                        assert(found@.contains(cand));
                    }
                }
            }
        }
        false
    }
}

impl MoveTables {
    /// The move does not leave the mover's king attacked.
    pub open spec fn is_legal(&self, model: PositionModel, m: Move) -> bool {
        !self.in_check(model.after_make(m), model.active_player)
    }

    /// The legality test of the move runs to its end and leaves the position
    /// as it found it.
    pub open spec fn legal_ok(&self, model: PositionModel, m: Move) -> bool {
        &&& model.move_sane(m)
        &&& self.in_check_ok(model.after_make(m), model.active_player)
    }

    /// The legal moves, in the order of `pseudo_moves`.
    pub open spec fn legal_moves(&self, model: PositionModel) -> Seq<Move> {
        self.pseudo_moves(model).filter(|m: Move| self.is_legal(model, m))
    }

    /// The moves of the position can be generated and tested: the position
    /// is well formed and on the tables' board, the player to move has a
    /// king, the fifty-move counter can still count, and en-passant data (if
    /// any) is consistent: its source tile is on the board, no piece stands
    /// on the passed tile, and an enemy pawn stands on the tile the double
    /// step ended on.
    pub open spec fn moves_ok(&self, model: PositionModel) -> bool {
        &&& model.wf()
        &&& self.position_fits(model)
        &&& self.in_check_ok(model, model.active_player)
        &&& model.record.fifty_move_counter < u32::MAX
        &&& (model.record.en_passant_data matches Some(e) ==> {
            &&& e.source_tile.0 < 128
            &&& !union_of(model.boards[model.opponent()]).contains(e.passed_tile.0 as int)
            &&& !union_of(model.boards[model.player()]).contains(e.passed_tile.0 as int)
            &&& first_board_from(model.boards[model.opponent()], e.occupied_tile.0 as int, 0) == Some(5int)
        })
    }

    /// The number of move sequences of length `depth` (the legal moves
    /// themselves at depth 1).
    pub open spec fn perft_spec(&self, model: PositionModel, depth: int) -> int
        decreases depth + 1, 0int,
    {
        let legal = self.legal_moves(model);
        if depth == 1 {
            legal.len() as int
        } else if depth <= 0 {
            0
        } else {
            self.children_sum(model, legal, depth - 1, legal.len() as int)
        }
    }

    /// The sum of the counts to depth `d` after each of the first `k` moves.
    pub open spec fn children_sum(&self, model: PositionModel, moves: Seq<Move>, d: int, k: int) -> int
        decreases d + 1, k + 1,
    {
        if k <= 0 || d < 1 {
            0
        } else {
            self.children_sum(model, moves, d, k - 1) + self.perft_spec(model.after_make(moves[k - 1]), d)
        }
    }

    /// Counting to `depth` runs to its end: the moves of every position
    /// reached can be generated and tested, and depth 0 is asked only of a
    /// position without legal moves.
    pub open spec fn perft_ok(&self, model: PositionModel, depth: int) -> bool
        decreases depth,
    {
        &&& self.moves_ok(model)
        &&& (depth == 0 ==> self.legal_moves(model).len() == 0)
        &&& (depth > 1 ==> forall|i: int|
            0 <= i < self.legal_moves(model).len() ==> self.perft_ok(
                model.after_make(#[trigger] self.legal_moves(model)[i]),
                depth - 1,
            ))
    }
}

impl Position {
    /// Both players' occupied boards agree with their piece boards.
    pub open spec fn occupied_ok(&self) -> bool {
        &&& self.pieces@[0].occupied_consistent()
        &&& self.pieces@[1].occupied_consistent()
    }

    /// Whether the move leaves the mover's king unattacked; the move is made
    /// and taken back, so the position ends as it began.
    pub fn is_legal_move(&mut self, chess_move: &Move, move_tables: &MoveTables) -> (r: bool)
        requires
            move_tables.wf(),
            old(self).wf(),
            move_tables.legal_ok(old(self).model(), *chess_move),
        ensures
            r == move_tables.is_legal(old(self).model(), *chess_move),
            final(self).model() == old(self).model(),
            final(self).wf(),
    {
        let ghost before = self.model();
        let moving_player = self.active_player;
        self.make_legal_move(chess_move);
        let legality = !self.is_in_check(move_tables, &moving_player);
        proof {
            crate::position::lemma_unmake_undoes_make(before, *chess_move);
        }
        self.unmake_legal_move(chess_move);
        legality
    }
}

impl MoveTables {
    /// Whether the move leaves the mover's king unattacked.
    pub fn is_legal_move(&self, chess_move: &Move, position: &mut Position) -> (r: bool)
        requires
            self.wf(),
            old(position).wf(),
            self.legal_ok(old(position).model(), *chess_move),
        ensures
            r == self.is_legal(old(position).model(), *chess_move),
            final(position).model() == old(position).model(),
            final(position).wf(),
    {
        position.is_legal_move(chess_move, self)
    }

    /// The legal moves of the player to move, in generation order.
    pub fn get_legal_moves(&self, position: &mut Position) -> (r: Vec<Move>)
        requires
            self.wf(),
            old(position).wf(),
            self.moves_ok(old(position).model()),
        ensures
            r@ == self.legal_moves(old(position).model()),
            final(position).model() == old(position).model(),
            final(position).wf(),
    {
        let ghost model = position.model();
        let pseudo = self.get_pseudo_moves(position);
        let ghost pred = |m: Move| self.is_legal(model, m);
        let mut legal_moves: Vec<Move> = Vec::new();
        let mut i: usize = 0;
        while i < pseudo.len()
            invariant
                self.wf(),
                position.wf(),
                position.model() == model,
                self.moves_ok(model),
                pseudo@ == self.pseudo_moves(model),
                pred == (|m: Move| self.is_legal(model, m)),
                i <= pseudo@.len(),
                legal_moves@ == pseudo@.take(i as int).filter(pred),
            decreases pseudo@.len() - i,
        {
            let chess_move = pseudo[i];
            proof {
                self.lemma_pseudo_moves_ok(model);
                assert(self.legal_ok(model, pseudo@[i as int]));
            }
            let legal = self.is_legal_move(&chess_move, position);
            proof {
                assert(pseudo@.take(i as int + 1).drop_last() =~= pseudo@.take(i as int));
                reveal(Seq::filter);
            }
            if legal {
                legal_moves.push(chess_move);
            }
            i = i + 1;
        }
        proof {
            assert(pseudo@.take(pseudo@.len() as int) =~= pseudo@);
        }
        legal_moves
    }

    /// Whether the moves of the position can be generated and tested (see
    /// `moves_ok`): every piece of the player to move is on the board, that
    /// player has a king, the fifty-move counter can still count, and any
    /// en-passant data is consistent.
    pub fn moves_can_be_generated(&self, position: &Position) -> (r: bool)
        requires
            self.wf(),
            position.wf(),
        ensures
            r == self.moves_ok(position.model()),
    {
        let ghost model = position.model();
        let p = position.active_player.as_idx();
        let o = position.active_player.opponent().as_idx();
        let n = self.king_table.num_tiles();
        let own = position.pieces[p].occupied;
        let enemies = position.pieces[o].occupied;
        proof {
            crate::position::lemma_union_of_boards(position.pieces@[p as int]);
            crate::position::lemma_union_of_boards(position.pieces@[o as int]);
            assert(position.pieces@[p as int].piece_boards@ == model.boards[model.player()]);
            assert(position.pieces@[o as int].piece_boards@ == model.boards[model.opponent()]);
            assert forall|k: int, t: int| 0 <= k < 6 && #[trigger] model.boards[model.player()][k]@.contains(t) implies 0 <= t < 128 && own@.contains(t) by {
                lemma_board_finite(model.boards[model.player()][k]);
                assert(vstd::set_lib::set_int_range(0, 128).contains(t));
            }
        }
        let mut t: usize = n;
        while t < 128
            invariant
                n == self.num_tiles(),
                n <= t <= 128,
                model == position.model(),
                position.wf(),
                own@ == union_of(model.boards[model.player()]),
                forall|x: int| n <= x < t ==> !own@.contains(x),
            decreases 128 - t,
        {
            if own.get_bit_at_tile(&TileIndex(t)) {
                proof {
                    let k = choose|k: int| 0 <= k < 6 && #[trigger] model.boards[model.player()][k]@.contains(t as int);
                    assert(!self.position_fits(model));
                }
                return false;
            }
            t = t + 1;
        }
        proof {
            assert forall|k: int, x: int| 0 <= k < 6 && #[trigger] model.boards[model.player()][k]@.contains(x) implies 0 <= x < n by {
                lemma_board_finite(model.boards[model.player()][k]);
                assert(vstd::set_lib::set_int_range(0, 128).contains(x));
                assert(union_of(model.boards[model.player()]).contains(x));
            }
        }
        match position.pieces[p].piece_boards[0].lowest_one() {
            None => {
                return false;
            },
            Some(king) => {
                proof {
                    lemma_board_finite(model.boards[model.player()][0]);
                    assert forall|j: int| model.boards[model.player()][0]@.contains(j) implies 0 <= j by {
                        assert(vstd::set_lib::set_int_range(0, 128).contains(j));
                    }
                    lemma_lowest_tile(model.boards[model.player()][0]@, king.0 as int);
                }
                if king.0 >= n {
                    return false;
                }
            },
        }
        if position.record.fifty_move_counter == u32::MAX {
            return false;
        }
        match position.record.en_passant_data {
            None => true,
            Some(e) => {
                if e.passed_tile.0 >= 128 || e.source_tile.0 >= 128 || e.occupied_tile.0 >= 128 {
                    proof {
                        if e.occupied_tile.0 >= 128 {
                            lemma_first_board_from(model.boards[model.opponent()], e.occupied_tile.0 as int, 0);
                            if first_board_from(model.boards[model.opponent()], e.occupied_tile.0 as int, 0) is Some {
                                let j = first_board_from(model.boards[model.opponent()], e.occupied_tile.0 as int, 0)->0;
                                lemma_board_finite(model.boards[model.opponent()][j]);
                                assert(vstd::set_lib::set_int_range(0, 128).contains(e.occupied_tile.0 as int));
                            }
                        }
                    }
                    false
                } else if enemies.get_bit_at_tile(&e.passed_tile) || own.get_bit_at_tile(&e.passed_tile) {
                    false
                } else {
                    let victim = position.pieces[o].get_piece_at(&e.occupied_tile);
                    proof {
                        lemma_first_board_from(model.boards[model.opponent()], e.occupied_tile.0 as int, 0);
                    }
                    victim == Some(PieceType::Pawn)
                }
            },
        }
    }

    /// Whether the player to move has a legal move.
    pub fn has_legal_moves(&self, position: &mut Position) -> (r: bool)
        requires
            self.wf(),
            old(position).wf(),
            self.moves_ok(old(position).model()),
        ensures
            r == (self.legal_moves(old(position).model()).len() > 0),
            final(position).model() == old(position).model(),
            final(position).wf(),
    {
        let legal_moves = self.get_legal_moves(position);
        legal_moves.len() > 0
    }

    /// The number of move sequences of length `depth` from the position; the
    /// position ends as it began.
    pub fn perft(&self, position: &mut Position, depth: u8) -> (r: u64)
        requires
            self.wf(),
            old(position).wf(),
            self.perft_ok(old(position).model(), depth as int),
            self.perft_spec(old(position).model(), depth as int) <= u64::MAX,
        ensures
            r == self.perft_spec(old(position).model(), depth as int),
            final(position).model() == old(position).model(),
            final(position).wf(),
        decreases depth,
    {
        let ghost model = position.model();
        let legal_moves = self.get_legal_moves(position);
        if depth == 1 {
            return legal_moves.len() as u64;
        }
        proof {
            self.lemma_children_sum_mono(model, legal_moves@, depth - 1, 0, legal_moves@.len() as int);
        }
        let mut output: u64 = 0;
        let mut i: usize = 0;
        while i < legal_moves.len()
            invariant
                self.wf(),
                position.wf(),
                position.model() == model,
                legal_moves@ == self.legal_moves(model),
                self.perft_ok(model, depth as int),
                depth != 1,
                depth == 0 ==> legal_moves@.len() == 0,
                self.perft_spec(model, depth as int) <= u64::MAX,
                depth >= 2 ==> self.perft_spec(model, depth as int) == self.children_sum(
                    model,
                    legal_moves@,
                    depth - 1,
                    legal_moves@.len() as int,
                ),
                i <= legal_moves@.len(),
                output == self.children_sum(model, legal_moves@, depth - 1, i as int),
            decreases legal_moves@.len() - i,
        {
            let chess_move = legal_moves[i];
            proof {
                assert(self.perft_ok(model.after_make(legal_moves@[i as int]), depth - 1));
                let pseudo = self.pseudo_moves(model);
                let pred = |m: Move| self.is_legal(model, m);
                lemma_filter_from(pseudo, pred, i as int);
                assert(pseudo.contains(chess_move));
                let j = choose|j: int| 0 <= j < pseudo.len() && pseudo[j] == chess_move;
                self.lemma_pseudo_moves_ok(model);
                assert(self.legal_ok(model, pseudo[j]));
                crate::position::lemma_unmake_undoes_make(model, chess_move);
                self.lemma_children_sum_mono(model, legal_moves@, depth - 1, i as int + 1, legal_moves@.len() as int);
                self.lemma_perft_nonneg(model.after_make(chess_move), depth - 1);
                self.lemma_children_sum_mono(model, legal_moves@, depth - 1, 0, i as int);
            }
            position.make_legal_move(&chess_move);
            let count = self.perft(position, depth - 1);
            position.unmake_legal_move(&chess_move);
            output = output + count;
            i = i + 1;
        }
        output
    }
}

/// Every element of a filtered sequence comes from the sequence.
proof fn lemma_filter_from(s: Seq<Move>, pred: spec_fn(Move) -> bool, i: int)
    requires
        0 <= i < s.filter(pred).len(),
    ensures
        s.contains(s.filter(pred)[i]),
        pred(s.filter(pred)[i]),
    decreases s.len(),
{
    reveal(Seq::filter);
    s.filter_lemma(pred);
    if s.len() > 0 {
        let sub = s.drop_last().filter(pred);
        if i < sub.len() {
            lemma_filter_from(s.drop_last(), pred, i);
            assert(s.filter(pred)[i] == sub[i]);
            let j = choose|j: int| 0 <= j < s.drop_last().len() && s.drop_last()[j] == sub[i];
            assert(s[j] == sub[i]);
        } else {
            assert(s.filter(pred)[i] == s.last());
            assert(s[s.len() - 1] == s.last());
        }
    }
}

impl MoveTables {
    /// Every legal move of a position whose moves can be tested can be made
    /// (and taken back).
    pub proof fn lemma_legal_move_ok(&self, model: PositionModel, i: int)
        requires
            self.wf(),
            self.moves_ok(model),
            0 <= i < self.legal_moves(model).len(),
        ensures
            self.legal_ok(model, self.legal_moves(model)[i]),
    {
        let pseudo = self.pseudo_moves(model);
        let pred = |m: Move| self.is_legal(model, m);
        lemma_filter_from(pseudo, pred, i);
        let j = choose|j: int| 0 <= j < pseudo.len() && pseudo[j] == self.legal_moves(model)[i];
        self.lemma_pseudo_moves_ok(model);
        assert(self.legal_ok(model, pseudo[j]));
    }

    /// Move counts are never negative.
    pub proof fn lemma_perft_nonneg(&self, model: PositionModel, depth: int)
        ensures
            self.perft_spec(model, depth) >= 0,
        decreases depth + 1, 0int,
    {
        if depth > 1 {
            let legal = self.legal_moves(model);
            self.lemma_children_sum_nonneg(model, legal, depth - 1, legal.len() as int);
        }
    }

    proof fn lemma_children_sum_nonneg(&self, model: PositionModel, moves: Seq<Move>, d: int, k: int)
        ensures
            self.children_sum(model, moves, d, k) >= 0,
        decreases d + 1, k + 1,
    {
        if k > 0 && d >= 1 {
            self.lemma_children_sum_nonneg(model, moves, d, k - 1);
            self.lemma_perft_nonneg(model.after_make(moves[k - 1]), d);
        }
    }

    /// Partial sums of counts grow with the number of moves summed.
    proof fn lemma_children_sum_mono(&self, model: PositionModel, moves: Seq<Move>, d: int, j: int, k: int)
        requires
            0 <= j <= k,
        ensures
            self.children_sum(model, moves, d, j) <= self.children_sum(model, moves, d, k),
        decreases k - j,
    {
        if j < k {
            self.lemma_children_sum_mono(model, moves, d, j, k - 1);
            if d >= 1 {
                self.lemma_perft_nonneg(model.after_make(moves[k - 1]), d);
            }
        }
    }
}

impl Position {
    /// The player to move is in check and has no legal move.
    pub fn is_checkmate(&mut self, move_tables: &MoveTables) -> (r: bool)
        requires
            move_tables.wf(),
            old(self).wf(),
            move_tables.in_check_ok(old(self).model(), old(self).active_player),
            move_tables.in_check(old(self).model(), old(self).active_player) ==> move_tables.moves_ok(
                old(self).model(),
            ),
        ensures
            r == (move_tables.in_check(old(self).model(), old(self).active_player)
                && move_tables.legal_moves(old(self).model()).len() == 0),
            final(self).model() == old(self).model(),
            final(self).wf(),
    {
        let active = self.active_player;
        self.is_in_check(move_tables, &active) && !move_tables.has_legal_moves(self)
    }

    /// The player to move is not in check and has no legal move.
    pub fn is_stalemate(&mut self, move_tables: &MoveTables) -> (r: bool)
        requires
            move_tables.wf(),
            old(self).wf(),
            move_tables.in_check_ok(old(self).model(), old(self).active_player),
            !move_tables.in_check(old(self).model(), old(self).active_player) ==> move_tables.moves_ok(
                old(self).model(),
            ),
        ensures
            r == (!move_tables.in_check(old(self).model(), old(self).active_player)
                && move_tables.legal_moves(old(self).model()).len() == 0),
            final(self).model() == old(self).model(),
            final(self).wf(),
    {
        let active = self.active_player;
        !self.is_in_check(move_tables, &active) && !move_tables.has_legal_moves(self)
    }

    /// Whether the move is one the player to move may play: a piece of theirs
    /// stands on the source tile, it can reach the destination, the move
    /// leaves their king safe, and a pawn reaching a promotion tile names its
    /// promotion.
    pub open spec fn playable(&self, move_tables: &MoveTables, m: Move) -> bool {
        let model = self.model();
        let p = model.player();
        let s = m.source_tile.0 as int;
        let d = m.destination_tile.0 as int;
        let occ = MoveTables::all_occupied(model);
        match model.piece_index_at(p, s) {
            None => false,
            Some(k) => {
                let movement = if k == 5 {
                    move_tables.pawn_moves(
                        model.active_player,
                        s,
                        board_of(union_of(model.boards[model.opponent()])),
                        occ,
                        model.record.en_passant_data,
                    )
                } else {
                    move_tables.piece_moves(k, s, occ)
                };
                &&& movement.contains(d)
                &&& move_tables.is_legal(model, m)
                &&& !(move_tables.pawn_tables_of(model.active_player).promotion_board@.contains(d) && k
                    == 5 && m.promotion is None)
            },
        }
    }

    /// The move can be tested: the position's moves can be generated and
    /// tested, the move's tiles are on the board, and if the player to move
    /// has a piece on its source tile, the destination is not one of that
    /// player's own tiles and only a pawn promotes, to neither a pawn nor a
    /// king.
    ///
    /// The destination is assumed valid, as the game makes sure by offering
    /// only tiles that `Game::query_tile` returns, none of which the mover
    /// holds, and moves that promote a pawn to a queen only. Testing a move
    /// onto a tile the mover holds would make and take back a move that puts
    /// two pieces on one tile, after which taking it back need not restore
    /// the position (the piece found first on the tile is the one moved back).
    pub open spec fn playable_testable(&self, move_tables: &MoveTables, m: Move) -> bool {
        let model = self.model();
        let s = m.source_tile.0 as int;
        &&& move_tables.moves_ok(model)
        &&& m.source_tile.0 < move_tables.num_tiles()
        &&& m.destination_tile.0 < 128
        &&& (model.piece_index_at(model.player(), s) matches Some(k) ==> {
            &&& !union_of(model.boards[model.player()]).contains(m.destination_tile.0 as int)
            &&& (m.promotion matches Some(q) ==> k == 5 && q != PieceType::Pawn && q != PieceType::King)
        })
    }

    /// Whether the move is one the player to move may play. The move's
    /// destination is assumed valid (see `playable_testable`).
    pub fn is_playable_move(&mut self, chess_move: &Move, move_tables: &MoveTables) -> (r: bool)
        requires
            move_tables.wf(),
            old(self).wf(),
            old(self).playable_testable(move_tables, *chess_move),
        ensures
            r == old(self).playable(move_tables, *chess_move),
            r ==> move_tables.legal_ok(old(self).model(), *chess_move),
            final(self).model() == old(self).model(),
            final(self).wf(),
    {
        let ghost model = self.model();
        let player_idx = self.active_player.as_idx();
        let opponent_idx = self.active_player.opponent().as_idx();
        proof {
            crate::piece_set::lemma_first_board_from(model.boards[model.player()], chess_move.source_tile.0 as int, 0);
        }
        let selected_piece = self.pieces[player_idx].get_piece_at(&chess_move.source_tile);
        let occupied = self.get_occupied();
        let enemies = self.pieces[opponent_idx].occupied;
        proof {
            crate::position::lemma_union_of_boards(self.pieces@[0]);
            crate::position::lemma_union_of_boards(self.pieces@[1]);
            assert(self.pieces@[player_idx as int].piece_boards@ == model.boards[model.player()]);
            assert(self.pieces@[opponent_idx as int].piece_boards@ == model.boards[model.opponent()]);
            lemma_board_ops(enemies, self.pieces@[player_idx as int].occupied);
            crate::bit_board::lemma_board_finite(occupied);
            crate::bit_board::lemma_board_finite(enemies);
            lemma_board_of(occupied@);
            lemma_board_of(enemies@);
            if player_idx == 0 {
                assert(occupied@ =~= union_of(model.boards[model.opponent()]).union(union_of(model.boards[model.player()])));
            } else {
                assert(occupied@ =~= union_of(model.boards[model.opponent()]).union(union_of(model.boards[model.player()])));
            }
            assert(occupied == MoveTables::all_occupied(model));
        }
        let movement_options = match selected_piece {
            None => {
                return false;
            },
            Some(PieceType::Pawn) => move_tables.query_pawn(
                &self.active_player,
                chess_move.source_tile,
                &enemies,
                occupied,
                &self.record.en_passant_data,
            ),
            Some(piece) => move_tables.query_piece(&piece, chess_move.source_tile, occupied),
        };
        proof {
            if selected_piece is Some {
                assert(selected_piece->0.spec_idx() == model.piece_index_at(model.player(), chess_move.source_tile.0 as int)->0);
            }
        }
        if movement_options.get_bit_at_tile(&chess_move.destination_tile) == false {
            return false;
        }
        proof {
            let k = model.piece_index_at(model.player(), chess_move.source_tile.0 as int)->0;
            if k == 0 {
                assert(move_tables.king_table.0@[chess_move.source_tile.0 as int]@.contains(
                    chess_move.destination_tile.0 as int,
                ));
            }
            move_tables.lemma_generated_move_ok(model, k, chess_move.source_tile.0 as int, *chess_move);
        }
        if self.is_legal_move(chess_move, move_tables) == false {
            return false;
        }
        let promotion_board = match player_idx {
            0 => move_tables.white_pawn_tables.promotion_board,
            _ => move_tables.black_pawn_tables.promotion_board,
        };
        if promotion_board.get_bit_at_tile(&chess_move.destination_tile) && selected_piece == Some(PieceType::Pawn)
            && chess_move.promotion.is_none() {
            return false;
        }
        true
    }

    /// The tiles occupied by either player.
    fn get_occupied(&self) -> (r: BitBoard)
        ensures
            r@ == self.pieces@[0].occupied@.union(self.pieces@[1].occupied@),
    {
        proof {
            lemma_board_ops(self.pieces@[0].occupied, self.pieces@[1].occupied);
        }
        self.pieces[0].occupied | self.pieces[1].occupied
    }
}


// ---- generated moves can be made, taken back and tested ----

/// Every move of a concatenation over tiles has a property when every move
/// of every part has it.
proof fn lemma_concat_over_all(tiles: Set<int>, lo: int, f: spec_fn(int) -> Seq<Move>, p: spec_fn(Move) -> bool)
    requires
        0 <= lo,
        forall|s: int, j: int| lo <= s < 128 && tiles.contains(s) && 0 <= j < f(s).len() ==> #[trigger] p(f(s)[j]),
    ensures
        forall|i: int| 0 <= i < concat_over(tiles, lo, f).len() ==> #[trigger] p(concat_over(tiles, lo, f)[i]),
    decreases 128 - lo,
{
    if lo < 128 {
        lemma_concat_over_all(tiles, lo + 1, f, p);
        let head = if tiles.contains(lo) {
            f(lo)
        } else {
            Seq::<Move>::empty()
        };
        let rest = concat_over(tiles, lo + 1, f);
        assert(concat_over(tiles, lo, f) == head + rest);
        assert forall|i: int| 0 <= i < (head + rest).len() implies #[trigger] p((head + rest)[i]) by {
            if i < head.len() {
                assert((head + rest)[i] == f(lo)[i]);
            } else {
                assert((head + rest)[i] == rest[i - head.len()]);
            }
        }
    }
}

/// Every move to the tiles of a set has a property when every move to each
/// tile has it.
proof fn lemma_moves_to_tiles_all(
    source: TileIndex,
    is_pawn: bool,
    tiles: Set<int>,
    ep: Option<EnPassantData>,
    promotable: BitBoard,
    lo: int,
    p: spec_fn(Move) -> bool,
)
    requires
        0 <= lo,
        forall|t: int, j: int|
            lo <= t < 128 && tiles.contains(t) && 0 <= j < tile_moves(source, is_pawn, t, ep, promotable).len()
                ==> #[trigger] p(tile_moves(source, is_pawn, t, ep, promotable)[j]),
    ensures
        forall|i: int|
            0 <= i < moves_to_tiles(source, is_pawn, tiles, ep, promotable, lo).len() ==> #[trigger] p(
                moves_to_tiles(source, is_pawn, tiles, ep, promotable, lo)[i],
            ),
    decreases 128 - lo,
{
    if lo < 128 {
        lemma_moves_to_tiles_all(source, is_pawn, tiles, ep, promotable, lo + 1, p);
        let head = if tiles.contains(lo) {
            tile_moves(source, is_pawn, lo, ep, promotable)
        } else {
            Seq::<Move>::empty()
        };
        let rest = moves_to_tiles(source, is_pawn, tiles, ep, promotable, lo + 1);
        assert(moves_to_tiles(source, is_pawn, tiles, ep, promotable, lo) == head + rest);
        assert forall|i: int| 0 <= i < (head + rest).len() implies #[trigger] p((head + rest)[i]) by {
            if i < head.len() {
                assert((head + rest)[i] == tile_moves(source, is_pawn, lo, ep, promotable)[i]);
            } else {
                assert((head + rest)[i] == rest[i - head.len()]);
            }
        }
    }
}

/// A set of tiles with a tile from 0 on has a lowest tile.
proof fn lemma_lowest_exists(s: Set<int>, t: int)
    requires
        0 <= t,
        s.contains(t),
        forall|j: int| s.contains(j) ==> 0 <= j,
    ensures
        s.contains(lowest_tile(s)),
        lowest_tile(s) <= t,
    decreases t,
{
    if exists|j: int| 0 <= j < t && s.contains(j) {
        let j = choose|j: int| 0 <= j < t && s.contains(j);
        lemma_lowest_exists(s, j);
    } else {
        lemma_lowest_tile(s, t);
    }
}

impl MoveTables {
    /// A move of the mover's piece on `src` (on board `k`) to a tile the
    /// mover does not hold (on the board, for a king), promoting only a pawn
    /// and then neither to a pawn nor to a king, can be made, taken back and
    /// tested.
    proof fn lemma_generated_move_ok(&self, model: PositionModel, k: int, src: int, m: Move)
        requires
            self.wf(),
            self.moves_ok(model),
            0 <= k < 6,
            model.boards[model.player()][k]@.contains(src),
            m.source_tile.0 == src,
            m.destination_tile.0 < 128,
            !union_of(model.boards[model.player()]).contains(m.destination_tile.0 as int),
            k == 0 ==> m.destination_tile.0 < self.num_tiles(),
            m.promotion matches Some(q) ==> k == 5 && q != PieceType::Pawn && q != PieceType::King,
        ensures
            self.legal_ok(model, m),
    {
        let p = model.player();
        let o = model.opponent();
        let b = model.boards[p];
        let s = src;
        let d = m.destination_tile.0 as int;
        let n = self.num_tiles();
        lemma_first_board_from(b, s, 0);
        assert forall|i: int| 0 <= i < 6 && i != k implies !b[i]@.contains(s) by {
            assert(b[k]@.contains(s));
        }
        assert(model.piece_index_at(p, s) == Some(k)) by {
            let j = first_board_from(b, s, 0)->0;
            if first_board_from(b, s, 0) is None {
                assert(!b[k]@.contains(s));
            } else if j != k {
                assert(b[j]@.contains(s));
            }
        }
        assert(model.moving_index(m) == k);
        assert(union_of(b).contains(s));
        assert(s != d);
        assert(m.source_tile != m.destination_tile);
        lemma_board_finite(b[k]);
        assert(vstd::set_lib::set_int_range(0, 128).contains(s));
        if model.record.en_passant_data is Some {
            let e = model.record.en_passant_data->0;
            let occ = e.occupied_tile.0 as int;
            lemma_first_board_from(model.boards[o], occ, 0);
            lemma_board_finite(model.boards[o][5]);
            assert(vstd::set_lib::set_int_range(0, 128).contains(occ));
            if d == e.passed_tile.0 as int {
                lemma_first_board_from(model.boards[o], d, 0);
                if model.capture_index(m) is Some {
                    let j = model.capture_index(m)->0;
                    assert(model.boards[o][j]@.contains(d));
                    assert(union_of(model.boards[o]).contains(d));
                }
                assert(model.opponent_after_capture(m) == model.boards_of(o));
            }
        }
        assert(model.make_ok(m));
        assert(model.move_sane(m));
        // the mover keeps a king on the board
        let after = model.after_make(m);
        let mb = model.mover_boards_after(m);
        assert(after.boards[model.active_player.spec_idx()] == mb);
        assert(mb.len() == 6);
        lemma_first_board_from(model.boards[o], d, 0);
        lemma_first_board_from(model.opponent_after_capture(m), model.record.en_passant_data->0.occupied_tile.0 as int, 0);
        assert(model.opponent_after_capture(m).len() == 6);
        assert(model.opponent_boards_after(m).len() == 6);
        assert forall|c: int| 0 <= c < 2 implies (#[trigger] after.boards[c]).len() == 6 by {}
        if k == 0 {
            let once = flipped(b[0], s);
            assert(mb[0] == flipped(once, d));
            lemma_flip_contains(once, d, d);
            lemma_flip_contains(b[0], s, d);
            assert(!b[0]@.contains(d));
            assert(mb[0]@.contains(d));
            assert forall|x: int| mb[0]@.contains(x) implies 0 <= x < n by {
                lemma_flip_contains(once, d, x);
                lemma_flip_contains(b[0], s, x);
                if x != d {
                    assert(b[0]@.contains(x));
                }
            }
            lemma_lowest_exists(mb[0]@, d);
            assert(mb[0]@ != Set::<int>::empty()) by {
                assert(mb[0]@.contains(d));
            }
        } else {
            assert(mb[0] == b[0]);
        }
        assert(self.in_check_ok(after, model.active_player));
    }

    /// Each move to a tile the mover does not hold (on the board, for a
    /// king), as generated for the piece on `src` (on board `k`), can be made,
    /// taken back and tested.
    proof fn lemma_tile_move_ok(
        &self,
        model: PositionModel,
        k: int,
        src: int,
        t: int,
        is_pawn: bool,
        ep: Option<EnPassantData>,
        promo: BitBoard,
        j: int,
    )
        requires
            self.wf(),
            self.moves_ok(model),
            0 <= k < 6,
            0 <= src < 128,
            is_pawn == (k == 5),
            model.boards[model.player()][k]@.contains(src),
            0 <= t < 128,
            !union_of(model.boards[model.player()]).contains(t),
            k == 0 ==> t < self.num_tiles(),
            0 <= j < tile_moves(TileIndex(src as usize), is_pawn, t, ep, promo).len(),
        ensures
            self.legal_ok(model, tile_moves(TileIndex(src as usize), is_pawn, t, ep, promo)[j]),
    {
        let mv = tile_moves(TileIndex(src as usize), is_pawn, t, ep, promo)[j];
        assert(mv.source_tile.0 == src);
        assert(mv.destination_tile.0 == t);
        self.lemma_generated_move_ok(model, k, src, mv);
    }

    /// Every move generated for the piece on `src` (on board `k`) can be
    /// made, taken back and tested.
    proof fn lemma_square_moves_ok(&self, model: PositionModel, k: int, src: int)
        requires
            self.wf(),
            self.moves_ok(model),
            0 <= k < 6,
            model.boards[model.player()][k]@.contains(src),
        ensures
            forall|j: int|
                0 <= j < self.square_moves(model, k, src).len() ==> self.legal_ok(
                    model,
                    #[trigger] self.square_moves(model, k, src)[j],
                ),
    {
        let c = model.active_player;
        let own = union_of(model.boards[model.player()]);
        let enemies = board_of(union_of(model.boards[model.opponent()]));
        let occ = Self::all_occupied(model);
        let raw = if k == 5 {
            self.pawn_moves(c, src, enemies, occ, model.record.en_passant_data)
        } else {
            self.piece_moves(k, src, occ)
        };
        let ep = if k == 5 {
            self.en_passantable(c, src)
        } else {
            None
        };
        let promo = if k == 5 {
            self.pawn_tables_of(c).promotion_board
        } else {
            BitBoard(0)
        };
        let source = TileIndex(src as usize);
        let tiles = raw.difference(own);
        let is_pawn = k == 5;
        let pred = |mv: Move| self.legal_ok(model, mv);
        lemma_board_finite(model.boards[model.player()][k]);
        assert(vstd::set_lib::set_int_range(0, 128).contains(src));
        assert(src < self.num_tiles());
        assert forall|t: int, j: int|
            0 <= t < 128 && tiles.contains(t) && 0 <= j < tile_moves(source, is_pawn, t, ep, promo).len() implies #[trigger] pred(
            tile_moves(source, is_pawn, t, ep, promo)[j]) by {
            if k == 0 {
                assert(self.king_table.0@[src]@.contains(t));
            }
            self.lemma_tile_move_ok(model, k, src, t, is_pawn, ep, promo, j);
        }
        lemma_moves_to_tiles_all(source, is_pawn, tiles, ep, promo, 0, pred);
        let all = moves_to_tiles(source, is_pawn, tiles, ep, promo, 0);
        assert(self.square_moves(model, k, src) == all);
        assert forall|j: int| 0 <= j < all.len() implies self.legal_ok(model, #[trigger] all[j]) by {
            assert(pred(all[j]));
        }
    }

    proof fn lemma_pseudo_moves_from_ok(&self, model: PositionModel, k: int)
        requires
            self.wf(),
            self.moves_ok(model),
            0 <= k,
        ensures
            forall|i: int|
                0 <= i < self.pseudo_moves_from(model, k).len() ==> self.legal_ok(
                    model,
                    #[trigger] self.pseudo_moves_from(model, k)[i],
                ),
        decreases 6 - k,
    {
        if k < 6 {
            self.lemma_pseudo_moves_from_ok(model, k + 1);
            let tiles = model.boards[model.player()][k]@;
            let f = |src: int| self.square_moves(model, k, src);
            let pred = |mv: Move| self.legal_ok(model, mv);
            assert forall|s: int, j: int| 0 <= s < 128 && tiles.contains(s) && 0 <= j < f(s).len() implies #[trigger] pred(
                f(s)[j]) by {
                self.lemma_square_moves_ok(model, k, s);
            }
            lemma_concat_over_all(tiles, 0, f, pred);
            let a = self.piece_type_moves(model, k);
            let rest = self.pseudo_moves_from(model, k + 1);
            assert(a == concat_over(tiles, 0, f));
            assert(self.pseudo_moves_from(model, k) == a + rest);
            assert forall|i: int| 0 <= i < (a + rest).len() implies self.legal_ok(model, #[trigger] (a + rest)[i]) by {
                if i < a.len() {
                    assert(pred(a[i]));
                } else {
                    assert((a + rest)[i] == rest[i - a.len()]);
                }
            }
        }
    }

    /// Every generated move of a position whose moves can be tested can be
    /// made, taken back and tested.
    pub proof fn lemma_pseudo_moves_ok(&self, model: PositionModel)
        requires
            self.wf(),
            self.moves_ok(model),
        ensures
            forall|i: int|
                0 <= i < self.pseudo_moves(model).len() ==> self.legal_ok(model, #[trigger] self.pseudo_moves(model)[i]),
    {
        self.lemma_pseudo_moves_from_ok(model, 0);
    }
}

} // verus!
