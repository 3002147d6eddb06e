use vstd::prelude::*;

use crate::bit_board::BitBoard;
use crate::bits::{bit_count, has_bit, lemma_bit_count_max, u128_count_ones};
use crate::constants::NUM_PIECE_TYPES;
use crate::graph_boards::graph_board::TileIndex;
use crate::move_generator::MoveTables;
use crate::movement_tables::{JumpTable, PawnTables, SlideTables};
use crate::piece_set::{piece_type_of, Color, PieceSet, PieceType};
use crate::position::Position;

verus! {

/// The score of a checkmated player, in centipawns.
pub const CHECKMATED_SCORE: isize = -99999;

/// The weight of a tile's mobility in the positional score.
pub const POSITIONAL_MULTIPLIER: isize = 5;

/// The material value of the piece type of board index `k`, in centipawns:
/// king, queen, rook, bishop, knight, pawn.
pub open spec fn piece_score(k: int) -> int {
    if k == 0 {
        9999
    } else if k == 1 {
        900
    } else if k == 2 {
        500
    } else if k == 3 {
        350
    } else if k == 4 {
        350
    } else {
        100
    }
}

fn piece_score_of(k: usize) -> (r: isize)
    ensures
        r == piece_score(k as int),
{
    match k {
        0 => 9999,
        1 => 900,
        2 => 500,
        3 => 350,
        4 => 350,
        _ => 100,
    }
}

/// Whether a slider of the given type moves in direction `d`: all
/// directions for a queen, the odd ones for a bishop, the even ones for any
/// other type.
pub open spec fn slide_direction_counted(piece_type: PieceType, d: int) -> bool {
    if piece_type == PieceType::Queen {
        d >= 0
    } else if piece_type == PieceType::Bishop {
        d >= 1 && (d - 1) % 2 == 0
    } else {
        d >= 0 && d % 2 == 0
    }
}

/// The number of tiles a slider reaches from tile `t` on an empty board,
/// summed over the counted directions below `upto`.
pub open spec fn slide_mobility(table: SlideTables, piece_type: PieceType, t: int, upto: int) -> int
    decreases upto,
{
    if upto <= 0 {
        0
    } else {
        slide_mobility(table, piece_type, t, upto - 1) + (if slide_direction_counted(piece_type, upto - 1)
            && t < table.0@[upto - 1].0@.len() {
            bit_count(table.0@[upto - 1].0@[t]@[0u128].0) as int
        } else {
            0
        })
    }
}

proof fn lemma_slide_mobility_bound(table: SlideTables, piece_type: PieceType, t: int, upto: int)
    requires
        upto >= 0,
    ensures
        0 <= slide_mobility(table, piece_type, t, upto) <= 128 * upto,
    decreases upto,
{
    if upto > 0 {
        lemma_slide_mobility_bound(table, piece_type, t, upto - 1);
        if t < table.0@[upto - 1].0@.len() {
            lemma_bit_count_max(table.0@[upto - 1].0@[t]@[0u128].0);
        }
    }
}

/// For each tile, the number of moves a piece has from it on an empty board.
pub struct MobilityTable(pub Vec<u32>);

impl MobilityTable {
    /// The number of tiles of each board of a jump table.
    pub fn from_jumps(table: &JumpTable) -> (r: Self)
        ensures
            r.0@.len() == table.0@.len(),
            forall|i: int| 0 <= i < r.0@.len() ==> (#[trigger] r.0@[i]) == bit_count(table.0@[i].0),
    {
        let mut output: Vec<u32> = Vec::new();
        let mut i: usize = 0;
        while i < table.0.len()
            invariant
                i <= table.0@.len(),
                output@.len() == i,
                forall|j: int| 0 <= j < i ==> (#[trigger] output@[j]) == bit_count(table.0@[j].0),
            decreases table.0@.len() - i,
        {
            output.push(u128_count_ones(table.0[i].0));
            i = i + 1;
        }
        Self(output)
    }

    /// For each of the 128 tiles, the number of tiles a slider of the given
    /// type reaches from it on an empty board.
    pub fn from_slides(table: &SlideTables, piece_type: PieceType) -> (r: Self)
        requires
            table.0@.len() <= 128,
            forall|d: int|
                0 <= d < table.0@.len() ==> (#[trigger] table.0@[d]).0@.len() <= 128 && forall|t: int|
                    0 <= t < table.0@[d].0@.len() ==> (#[trigger] table.0@[d].0@[t])@.contains_key(0u128),
        ensures
            r.0@.len() == 128,
            forall|t: int|
                0 <= t < 128 ==> (#[trigger] r.0@[t]) == slide_mobility(*table, piece_type, t, table.0@.len() as int),
    {
        let initial_direction: usize = if piece_type == PieceType::Bishop {
            1
        } else {
            0
        };
        let direction_step: usize = if piece_type == PieceType::Queen {
            1
        } else {
            2
        };
        let mut output: Vec<u32> = Vec::new();
        let mut t: usize = 0;
        while t < 128
            invariant
                t <= 128,
                output@.len() == t,
                forall|j: int| 0 <= j < t ==> (#[trigger] output@[j]) == 0,
            decreases 128 - t,
        {
            output.push(0);
            t = t + 1;
        }
        let mut direction: usize = initial_direction;
        proof {
            assert forall|t: int| 0 <= t < 128 implies (#[trigger] output@[t]) == slide_mobility(
                *table,
                piece_type,
                t,
                if direction < table.0@.len() { direction as int } else { table.0@.len() as int },
            ) by {
                assert(slide_mobility(*table, piece_type, t, 0) == 0);
                if piece_type == PieceType::Bishop {
                    assert(slide_mobility(*table, piece_type, t, 1) == 0);
                }
            }
        }
        while direction < table.0.len()
            invariant
                table.0@.len() <= 128,
                forall|d: int|
                    0 <= d < table.0@.len() ==> (#[trigger] table.0@[d]).0@.len() <= 128 && forall|t: int|
                        0 <= t < table.0@[d].0@.len() ==> (#[trigger] table.0@[d].0@[t])@.contains_key(0u128),
                initial_direction == (if piece_type == PieceType::Bishop { 1usize } else { 0usize }),
                direction_step == (if piece_type == PieceType::Queen { 1usize } else { 2usize }),
                initial_direction <= direction <= table.0@.len() + 1,
                (direction - initial_direction) % (direction_step as int) == 0,
                output@.len() == 128,
                forall|t: int|
                    0 <= t < 128 ==> (#[trigger] output@[t]) == slide_mobility(
                        *table,
                        piece_type,
                        t,
                        if direction < table.0@.len() { direction as int } else { table.0@.len() as int },
                    ),
            decreases table.0@.len() + 1 - direction,
        {
            let rows = &table.0[direction].0;
            let mut tile_idx: usize = 0;
            let ghost before = output@;
            proof {
                assert(slide_direction_counted(piece_type, direction as int));
                assert forall|t: int| 0 <= t < 128 implies 0 <= #[trigger] slide_mobility(*table, piece_type, t, direction as int) <= 128 * direction by {
                    lemma_slide_mobility_bound(*table, piece_type, t, direction as int);
                }
            }
            while tile_idx < rows.len()
                invariant
                    rows@ == table.0@[direction as int].0@,
                    rows@.len() <= 128,
                    direction < table.0@.len() <= 128,
                    forall|t: int| 0 <= t < rows@.len() ==> (#[trigger] rows@[t])@.contains_key(0u128),
                    tile_idx <= rows@.len(),
                    output@.len() == 128,
                    forall|t: int|
                        0 <= t < 128 ==> before[t] == slide_mobility(*table, piece_type, t, direction as int),
                    forall|t: int| 0 <= t < 128 ==> 0 <= #[trigger] slide_mobility(*table, piece_type, t, direction as int) <= 128 * direction,
                    forall|t: int|
                        0 <= t < 128 ==> (#[trigger] output@[t]) == before[t] + (if t < tile_idx {
                            bit_count(rows@[t]@[0u128].0) as int
                        } else {
                            0
                        }),
                decreases rows@.len() - tile_idx,
            {
                let count = u128_count_ones(rows[tile_idx].get(&0u128).unwrap().0);
                proof {
                    lemma_bit_count_max(rows@[tile_idx as int]@[0u128].0);
                }
                let current = output[tile_idx];
                output.set(tile_idx, current + count);
                tile_idx = tile_idx + 1;
            }
            proof {
                assert forall|t: int| 0 <= t < 128 implies (#[trigger] output@[t]) == slide_mobility(
                    *table,
                    piece_type,
                    t,
                    direction as int + 1,
                ) by {}
                let next = direction + direction_step;
                assert forall|d: int| direction < d < next implies !#[trigger] slide_direction_counted(piece_type, d) by {}
                assert forall|t: int| 0 <= t < 128 implies #[trigger] slide_mobility(*table, piece_type, t, direction as int + 1)
                    == slide_mobility(
                    *table,
                    piece_type,
                    t,
                    if next < table.0@.len() { next as int } else { table.0@.len() as int },
                ) by {
                    if direction_step == 2 && direction + 1 < table.0@.len() {
                        assert(slide_mobility(*table, piece_type, t, direction as int + 2) == slide_mobility(
                            *table,
                            piece_type,
                            t,
                            direction as int + 1,
                        ));
                    }
                }
            }
            direction = direction + direction_step;
        }
        proof {
            assert forall|t: int| 0 <= t < 128 implies (#[trigger] output@[t]) == slide_mobility(
                *table,
                piece_type,
                t,
                table.0@.len() as int,
            ) by {
                if initial_direction > table.0@.len() {
                    assert(table.0@.len() == 0);
                }
            }
        }
        Self(output)
    }

    /// The mobility of a pawn: its single steps.
    pub fn from_pawn(table: &PawnTables) -> (r: Self)
        ensures
            r.0@.len() == table.single_table.0@.len(),
            forall|i: int| 0 <= i < r.0@.len() ==> (#[trigger] r.0@[i]) == bit_count(table.single_table.0@[i].0),
    {
        Self::from_jumps(&table.single_table)
    }
}


/// The sum of `table` over the tiles below `n` of a board.
pub open spec fn tiles_sum(table: Seq<u32>, board: BitBoard, n: int) -> int
    decreases n,
{
    if n <= 0 {
        0
    } else {
        tiles_sum(table, board, n - 1) + (if has_bit(board.0, n - 1) {
            table[n - 1] as int
        } else {
            0
        })
    }
}

proof fn lemma_tiles_sum_bound(table: Seq<u32>, board: BitBoard, n: int, bound: int)
    requires
        0 <= n <= 128,
        bound >= 0,
        forall|t: int| 0 <= t < n && #[trigger] has_bit(board.0, t) ==> t < table.len() && table[t] <= bound,
    ensures
        0 <= tiles_sum(table, board, n) <= n * bound,
    decreases n,
{
    if n > 0 {
        lemma_tiles_sum_bound(table, board, n - 1, bound);
        assert((n - 1) * bound + bound == n * bound) by (nonlinear_arith);
    }
}

/// The material of a player's boards below index `k`: pieces counted by
/// their value.
pub open spec fn material(boards: Seq<BitBoard>, k: int) -> int
    decreases k,
{
    if k <= 0 {
        0
    } else {
        material(boards, k - 1) + bit_count(boards[k - 1].0) * piece_score(k - 1)
    }
}

/// The material of a player's piece boards: 9999 per king, 900 per queen,
/// 500 per rook, 350 per bishop, 350 per knight and 100 per pawn.
pub proof fn lemma_material_values(boards: Seq<BitBoard>)
    ensures
        material(boards, 6) == 9999 * bit_count(boards[0].0) + 900 * bit_count(boards[1].0) + 500 * bit_count(
            boards[2].0,
        ) + 350 * bit_count(boards[3].0) + 350 * bit_count(boards[4].0) + 100 * bit_count(boards[5].0),
{
    reveal_with_fuel(material, 7);
}

proof fn lemma_material_bound(boards: Seq<BitBoard>, k: int)
    requires
        0 <= k <= 6,
    ensures
        0 <= material(boards, k) <= k * 128 * 9999,
    decreases k,
{
    if k > 0 {
        lemma_material_bound(boards, k - 1);
        lemma_bit_count_max(boards[k - 1].0);
        let c = bit_count(boards[k - 1].0) as int;
        assert(0 <= c * piece_score(k - 1) <= 128 * 9999) by (nonlinear_arith)
            requires
                0 <= c <= 128,
                0 <= piece_score(k - 1) <= 9999,
        ;
    }
}

/// The mobility tables of each piece type, used to score positions.
pub struct Evaluator {
    pub king: MobilityTable,
    pub queen: MobilityTable,
    pub rook: MobilityTable,
    pub bishop: MobilityTable,
    pub knight: MobilityTable,
    pub white_pawn: MobilityTable,
    pub black_pawn: MobilityTable,
}

impl Evaluator {
    /// The mobility table of the piece type of board index `k` of `color`.
    pub open spec fn table_for(&self, k: int, color: Color) -> Seq<u32> {
        if k == 0 {
            self.king.0@
        } else if k == 1 {
            self.queen.0@
        } else if k == 2 {
            self.rook.0@
        } else if k == 3 {
            self.bishop.0@
        } else if k == 4 {
            self.knight.0@
        } else if color == Color::White {
            self.white_pawn.0@
        } else {
            self.black_pawn.0@
        }
    }

    /// Every table covers the `n` tiles of the board (the sliders' all 128)
    /// and no tile has more than 128 * 128 moves.
    pub open spec fn wf(&self, n: int) -> bool {
        &&& n <= 128
        &&& forall|k: int, c: Color| 0 <= k < 6 ==> n <= (#[trigger] self.table_for(k, c)).len() <= 128
        &&& forall|k: int, c: Color, t: int|
            0 <= k < 6 && 0 <= t < self.table_for(k, c).len() ==> #[trigger] self.table_for(k, c)[t] <= 128 * 128
    }

    /// Each table holds the mobility that the movement tables give its
    /// piece: the number of targets of a jump or single pawn step, the
    /// number of slide targets on an empty board.
    pub open spec fn built_from(&self, mt: MoveTables) -> bool {
        &&& forall|i: int|
            0 <= i < mt.num_tiles() ==> (#[trigger] self.king.0@[i]) == bit_count(mt.king_table.0@[i].0)
        &&& forall|i: int|
            0 <= i < mt.num_tiles() ==> (#[trigger] self.knight.0@[i]) == bit_count(mt.knight_table.0@[i].0)
        &&& forall|i: int|
            0 <= i < mt.num_tiles() ==> (#[trigger] self.white_pawn.0@[i]) == bit_count(
                mt.white_pawn_tables.single_table.0@[i].0,
            )
        &&& forall|i: int|
            0 <= i < mt.num_tiles() ==> (#[trigger] self.black_pawn.0@[i]) == bit_count(
                mt.black_pawn_tables.single_table.0@[i].0,
            )
        &&& forall|t: int|
            0 <= t < 128 ==> (#[trigger] self.queen.0@[t]) == slide_mobility(
                mt.slide_tables,
                PieceType::Queen,
                t,
                mt.slide_tables.0@.len() as int,
            )
        &&& forall|t: int|
            0 <= t < 128 ==> (#[trigger] self.rook.0@[t]) == slide_mobility(
                mt.slide_tables,
                PieceType::Rook,
                t,
                mt.slide_tables.0@.len() as int,
            )
        &&& forall|t: int|
            0 <= t < 128 ==> (#[trigger] self.bishop.0@[t]) == slide_mobility(
                mt.slide_tables,
                PieceType::Bishop,
                t,
                mt.slide_tables.0@.len() as int,
            )
    }

    /// The mobility tables of the pieces on the board of the movement
    /// tables.
    pub fn new(move_tables: &MoveTables) -> (r: Self)
        requires
            move_tables.wf(),
        ensures
            r.wf(move_tables.num_tiles()),
            r.built_from(*move_tables),
    {
        proof {
            let st = move_tables.slide_tables;
            assert forall|d: int| 0 <= d < st.0@.len() implies (#[trigger] st.0@[d]).0@.len() <= 128 && forall|t: int|
                0 <= t < st.0@[d].0@.len() ==> (#[trigger] st.0@[d].0@[t])@.contains_key(0u128) by {
                assert(st.0@[d].complete());
            }
        }
        let r = Self {
            king: MobilityTable::from_jumps(&move_tables.king_table),
            queen: MobilityTable::from_slides(&move_tables.slide_tables, PieceType::Queen),
            rook: MobilityTable::from_slides(&move_tables.slide_tables, PieceType::Rook),
            bishop: MobilityTable::from_slides(&move_tables.slide_tables, PieceType::Bishop),
            knight: MobilityTable::from_jumps(&move_tables.knight_table),
            white_pawn: MobilityTable::from_pawn(&move_tables.white_pawn_tables),
            black_pawn: MobilityTable::from_pawn(&move_tables.black_pawn_tables),
        };
        proof {
            let n = move_tables.num_tiles();
            let len = move_tables.slide_tables.0@.len() as int;
            assert forall|k: int, c: Color, t: int|
                0 <= k < 6 && 0 <= t < r.table_for(k, c).len() implies #[trigger] r.table_for(k, c)[t] <= 128 * 128 by {
                if k == 1 || k == 2 || k == 3 {
                    lemma_slide_mobility_bound(move_tables.slide_tables, piece_type_of(k), t, len);
                    assert(128 * len <= 128 * 128) by (nonlinear_arith)
                        requires
                            len <= 128,
                    ;
                } else if k == 0 {
                    lemma_bit_count_max(move_tables.king_table.0@[t].0);
                } else if k == 4 {
                    lemma_bit_count_max(move_tables.knight_table.0@[t].0);
                } else if c == Color::White {
                    lemma_bit_count_max(move_tables.white_pawn_tables.single_table.0@[t].0);
                } else {
                    lemma_bit_count_max(move_tables.black_pawn_tables.single_table.0@[t].0);
                }
            }
        }
        r
    }

    /// The material score of a player's pieces.
    pub fn pieceset_material_score(&self, piece_set: &PieceSet) -> (r: isize)
        requires
            piece_set.piece_boards@.len() == 6,
        ensures
            r == material(piece_set.piece_boards@, 6),
    {
        let mut material_score: isize = 0;
        let mut piece_idx: usize = 0;
        while piece_idx < NUM_PIECE_TYPES
            invariant
                piece_idx <= 6,
                piece_set.piece_boards@.len() == 6,
                material_score == material(piece_set.piece_boards@, piece_idx as int),
            decreases 6 - piece_idx,
        {
            proof {
                lemma_material_bound(piece_set.piece_boards@, piece_idx as int + 1);
                assert((piece_idx as int + 1) * 128 * 9999 <= 6 * 128 * 9999) by (nonlinear_arith)
                    requires
                        piece_idx < 6,
                ;
            }
            let count = u128_count_ones(piece_set.piece_boards[piece_idx].0);
            let score = piece_score_of(piece_idx);
            proof {
                lemma_bit_count_max(piece_set.piece_boards[piece_idx as int].0);
                assert(0 <= count * score <= 128 * 9999) by (nonlinear_arith)
                    requires
                        0 <= count <= 128,
                        0 <= score <= 9999,
                ;
                assert(material(piece_set.piece_boards@, piece_idx as int + 1) == material_score + count * score);
            }
            material_score = material_score + count as isize * score;
            piece_idx = piece_idx + 1;
        }
        material_score
    }

    /// The positional score of a player's pieces of one type: the mobility of
    /// the tiles they stand on, weighted.
    pub fn piece_positional_score(&self, piece_board: BitBoard, piece_type: PieceType, color: &Color) -> (r: isize)
        requires
            self.wf(self.king.0@.len() as int),
            forall|t: int| #[trigger] piece_board@.contains(t) ==> t < self.king.0@.len(),
        ensures
            r == POSITIONAL_MULTIPLIER * tiles_sum(self.table_for(piece_type.spec_idx(), *color), piece_board, 128),
    {
        let mobility_table = match piece_type {
            PieceType::King => &self.king,
            PieceType::Queen => &self.queen,
            PieceType::Rook => &self.rook,
            PieceType::Bishop => &self.bishop,
            PieceType::Knight => &self.knight,
            PieceType::Pawn => match color {
                Color::White => &self.white_pawn,
                Color::Black => &self.black_pawn,
            },
        };
        let ghost table = self.table_for(piece_type.spec_idx(), *color);
        assert(mobility_table.0@ == table);
        proof {
            assert forall|t: int| 0 <= t < 128 && #[trigger] has_bit(piece_board.0, t) implies t < table.len() && table[t] <= 128 * 128 by {
                assert(piece_board@.contains(t));
            }
            lemma_tiles_sum_bound(table, piece_board, 128, 16384int);
        }
        let mut score: u32 = 0;
        let mut tile_idx: usize = 0;
        while tile_idx < 128
            invariant
                tile_idx <= 128,
                mobility_table.0@ == table,
                forall|t: int| 0 <= t < 128 && #[trigger] has_bit(piece_board.0, t) ==> t < table.len() && table[t] <= 128 * 128,
                score == tiles_sum(table, piece_board, tile_idx as int),
            decreases 128 - tile_idx,
        {
            proof {
                lemma_tiles_sum_bound(table, piece_board, tile_idx as int + 1, 16384int);
                assert((tile_idx as int + 1) * (128 * 128) <= 128 * 128 * 128) by (nonlinear_arith)
                    requires
                        tile_idx < 128,
                ;
            }
            if piece_board.get_bit_at_tile(&TileIndex::new(tile_idx)) {
                score = score + mobility_table.0[tile_idx];
            }
            tile_idx = tile_idx + 1;
        }
        score as isize * POSITIONAL_MULTIPLIER
    }
}


/// The sign of the king's positional score: kings should move in the
/// endgame and stay put before it.
pub open spec fn king_factor(is_endgame: bool) -> int {
    if is_endgame {
        1
    } else {
        -1
    }
}

/// Whether the material left on the board makes an endgame: less than two
/// kings, queens and rooks are worth.
pub open spec fn endgame_material(total: int) -> bool {
    total < 2 * piece_score(0) + 2 * piece_score(1) + 2 * piece_score(2)
}

impl Evaluator {
    /// The positional score of a player's boards below index `k`.
    pub open spec fn positional(&self, boards: Seq<BitBoard>, is_endgame: bool, color: Color, k: int) -> int
        decreases k,
    {
        if k <= 0 {
            0
        } else {
            self.positional(boards, is_endgame, color, k - 1) + POSITIONAL_MULTIPLIER * tiles_sum(
                self.table_for(k - 1, color),
                boards[k - 1],
                128,
            ) * (if k - 1 == 0 {
                king_factor(is_endgame)
            } else {
                1
            })
        }
    }

    /// The score of a position for the player to move: material and
    /// positional score of the player, less those of the opponent.
    pub open spec fn evaluation(&self, model: crate::position::PositionModel) -> int {
        let mp = material(model.boards[model.player()], 6);
        let mo = material(model.boards[model.opponent()], 6);
        let endgame = endgame_material(mp + mo);
        mp - mo + self.positional(model.boards[model.player()], endgame, model.active_player, 6)
            - self.positional(model.boards[model.opponent()], endgame, model.active_player.spec_opponent(), 6)
    }

    /// The evaluation is zero-sum: with the same pieces and the other player
    /// to move, the score is negated.
    pub proof fn lemma_evaluation_zero_sum(&self, model: crate::position::PositionModel)
        ensures
            self.evaluation(
                crate::position::PositionModel { active_player: model.active_player.spec_opponent(), ..model },
            ) == -self.evaluation(model),
    {
        let other = crate::position::PositionModel { active_player: model.active_player.spec_opponent(), ..model };
        assert(other.player() == model.opponent());
        assert(other.opponent() == model.player());
        assert(other.active_player.spec_opponent() == model.active_player);
        let mp = material(model.boards[model.player()], 6);
        let mo = material(model.boards[model.opponent()], 6);
        assert(endgame_material(mo + mp) == endgame_material(mp + mo));
    }

    proof fn lemma_positional_bound(&self, boards: Seq<BitBoard>, is_endgame: bool, color: Color, k: int)
        requires
            self.wf(self.king.0@.len() as int),
            0 <= k <= 6,
            boards.len() == 6,
            forall|j: int, t: int| 0 <= j < 6 && #[trigger] boards[j]@.contains(t) ==> t < self.king.0@.len(),
        ensures
            -k * (5 * 128 * 16384) <= self.positional(boards, is_endgame, color, k) <= k * (5 * 128 * 16384),
        decreases k,
    {
        if k > 0 {
            self.lemma_positional_bound(boards, is_endgame, color, k - 1);
            let table = self.table_for(k - 1, color);
            assert forall|t: int| 0 <= t < 128 && #[trigger] has_bit(boards[k - 1].0, t) implies t < table.len() && table[t] <= 16384int by {
                assert(boards[k - 1]@.contains(t));
            }
            lemma_tiles_sum_bound(table, boards[k - 1], 128, 16384int);
            let v = tiles_sum(table, boards[k - 1], 128);
            let f = if k - 1 == 0 {
                king_factor(is_endgame)
            } else {
                1
            };
            assert(-(5 * 128 * 16384) <= POSITIONAL_MULTIPLIER * v * f <= 5 * 128 * 16384) by (nonlinear_arith)
                requires
                    0 <= v <= 128 * 16384,
                    f == 1 || f == -1,
                    POSITIONAL_MULTIPLIER == 5,
            ;
            assert(-k * (5 * 128 * 16384) == -(k - 1) * (5 * 128 * 16384) - (5 * 128 * 16384)) by (nonlinear_arith);
            assert(k * (5 * 128 * 16384) == (k - 1) * (5 * 128 * 16384) + (5 * 128 * 16384)) by (nonlinear_arith);
        }
    }

    /// The positional score of a player's pieces, the king's counted
    /// positively in the endgame and negatively before.
    pub fn pieceset_positional_score(&self, piece_set: &PieceSet, is_endgame: bool, color: &Color) -> (r: isize)
        requires
            self.wf(self.king.0@.len() as int),
            piece_set.piece_boards@.len() == 6,
            forall|j: int, t: int| 0 <= j < 6 && #[trigger] piece_set.piece_boards@[j]@.contains(t) ==> t < self.king.0@.len(),
        ensures
            r == self.positional(piece_set.piece_boards@, is_endgame, *color, 6),
    {
        let mut score: isize = 0;
        let king_multi: isize = if is_endgame {
            1
        } else {
            -1
        };
        let mut piece_idx: usize = 0;
        while piece_idx < NUM_PIECE_TYPES
            invariant
                piece_idx <= 6,
                self.wf(self.king.0@.len() as int),
                piece_set.piece_boards@.len() == 6,
                forall|j: int, t: int| 0 <= j < 6 && #[trigger] piece_set.piece_boards@[j]@.contains(t) ==> t < self.king.0@.len(),
                king_multi == king_factor(is_endgame),
                score == self.positional(piece_set.piece_boards@, is_endgame, *color, piece_idx as int),
            decreases 6 - piece_idx,
        {
            proof {
                self.lemma_positional_bound(piece_set.piece_boards@, is_endgame, *color, piece_idx as int + 1);
                assert((piece_idx as int + 1) * (5 * 128 * 16384) <= 6 * (5 * 128 * 16384)) by (nonlinear_arith)
                    requires
                        piece_idx < 6,
                ;
            }
            let piece_type = PieceType::from_idx(piece_idx);
            let mut piece_positional_score = self.piece_positional_score(
                piece_set.piece_boards[piece_idx],
                piece_type,
                color,
            );
            proof {
                assert(piece_type.spec_idx() == piece_idx);
                let table = self.table_for(piece_idx as int, *color);
                assert forall|t: int| 0 <= t < 128 && #[trigger] has_bit(piece_set.piece_boards@[piece_idx as int].0, t) implies t < table.len() && table[t] <= 16384int by {
                    assert(piece_set.piece_boards@[piece_idx as int]@.contains(t));
                }
                lemma_tiles_sum_bound(table, piece_set.piece_boards@[piece_idx as int], 128, 16384int);
                assert(0 <= piece_positional_score <= 5 * 128 * 16384);
                let x = piece_positional_score as int;
                let m = king_multi as int;
                assert(-(5 * 128 * 16384) <= x * m <= 5 * 128 * 16384) by (nonlinear_arith)
                    requires
                        0 <= x <= 5 * 128 * 16384,
                        m == 1 || m == -1,
                ;
            }
            if piece_type == PieceType::King {
                piece_positional_score = piece_positional_score * king_multi;
            }
            proof {
                assert(piece_positional_score == POSITIONAL_MULTIPLIER * tiles_sum(
                    self.table_for(piece_idx as int, *color),
                    piece_set.piece_boards@[piece_idx as int],
                    128,
                ) * (if piece_idx == 0 {
                    king_factor(is_endgame)
                } else {
                    1
                }));
            }
            score = score + piece_positional_score;
            piece_idx = piece_idx + 1;
        }
        score
    }

    /// The score of a position for the player to move.
    pub fn evaluate(&self, position: &Position) -> (r: isize)
        requires
            self.wf(self.king.0@.len() as int),
            position.model().wf(),
            forall|c: int, j: int, t: int|
                0 <= c < 2 && 0 <= j < 6 && #[trigger] position.model().boards[c][j]@.contains(t) ==> t < self.king.0@.len(),
        ensures
            r == self.evaluation(position.model()),
    {
        let ghost model = position.model();
        let player_idx = position.active_player.as_idx();
        let opponent_idx = position.active_player.opponent().as_idx();
        let player_pieceset = &position.pieces[player_idx];
        let opponent_pieceset = &position.pieces[opponent_idx];
        proof {
            assert(player_pieceset.piece_boards@ == model.boards[player_idx as int]);
            assert(opponent_pieceset.piece_boards@ == model.boards[opponent_idx as int]);
            lemma_material_bound(player_pieceset.piece_boards@, 6);
            lemma_material_bound(opponent_pieceset.piece_boards@, 6);
        }
        let mut score: isize = 0;
        let mut total_material_score: isize = 0;
        let player_material = self.pieceset_material_score(player_pieceset);
        score = score + player_material;
        total_material_score = total_material_score + player_material;
        let opponent_material = self.pieceset_material_score(opponent_pieceset);
        score = score - opponent_material;
        total_material_score = total_material_score + opponent_material;
        let is_endgame = total_material_score < 2 * piece_score_of(0) + 2 * piece_score_of(1) + 2 * piece_score_of(2);
        proof {
            assert forall|j: int, t: int| 0 <= j < 6 && #[trigger] player_pieceset.piece_boards@[j]@.contains(t) implies t < self.king.0@.len() by {
                assert(model.boards[player_idx as int][j]@.contains(t));
            }
            assert forall|j: int, t: int| 0 <= j < 6 && #[trigger] opponent_pieceset.piece_boards@[j]@.contains(t) implies t < self.king.0@.len() by {
                assert(model.boards[opponent_idx as int][j]@.contains(t));
            }
            self.lemma_positional_bound(player_pieceset.piece_boards@, is_endgame, position.active_player, 6);
            self.lemma_positional_bound(opponent_pieceset.piece_boards@, is_endgame, position.active_player.spec_opponent(), 6);
        }
        score = score + self.pieceset_positional_score(player_pieceset, is_endgame, &position.active_player);
        score = score - self.pieceset_positional_score(opponent_pieceset, is_endgame, &position.active_player.opponent());
        score
    }
}


impl Evaluator {
    /// Scores stay within two hundred million centipawns either way.
    pub proof fn lemma_evaluation_bound(&self, model: crate::position::PositionModel)
        requires
            self.wf(self.king.0@.len() as int),
            model.wf(),
            forall|c: int, j: int, t: int|
                0 <= c < 2 && 0 <= j < 6 && #[trigger] model.boards[c][j]@.contains(t) ==> t < self.king.0@.len(),
        ensures
            -200_000_000 <= self.evaluation(model) <= 200_000_000,
    {
        let p = model.player();
        let o = model.opponent();
        lemma_material_bound(model.boards[p], 6);
        lemma_material_bound(model.boards[o], 6);
        let mp = material(model.boards[p], 6);
        let mo = material(model.boards[o], 6);
        let endgame = endgame_material(mp + mo);
        assert forall|j: int, t: int| 0 <= j < 6 && #[trigger] model.boards[p][j]@.contains(t) implies t < self.king.0@.len() by {}
        assert forall|j: int, t: int| 0 <= j < 6 && #[trigger] model.boards[o][j]@.contains(t) implies t < self.king.0@.len() by {}
        self.lemma_positional_bound(model.boards[p], endgame, model.active_player, 6);
        self.lemma_positional_bound(model.boards[o], endgame, model.active_player.spec_opponent(), 6);
    }
}

} // verus!
