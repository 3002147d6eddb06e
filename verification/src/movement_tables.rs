use vstd::prelude::*;
use std::collections::HashMap;

use crate::bit_board::{BitBoard, BitBoardTiles, lemma_board_ops, lemma_board_finite};
use crate::graph_boards::graph_board::TileIndex;

verus! {

broadcast use vstd::std_specs::hash::group_hash_axioms;

/// Every board of `rows` holds only tiles below `n`.
pub open spec fn rows_within(rows: Seq<BitBoard>, n: int) -> bool {
    forall|i: int, t: int| 0 <= i < rows.len() && #[trigger] rows[i]@.contains(t) ==> 0 <= t < n
}

/// `out` is the transpose of `rows`: tile `i` is on board `j` of `out` exactly
/// when tile `j` is on board `i` of `rows`.
pub open spec fn is_transpose(out: Seq<BitBoard>, rows: Seq<BitBoard>) -> bool {
    &&& out.len() == rows.len()
    &&& forall|j: int, i: int|
        #![trigger out[j]@.contains(i)]
        #![trigger rows[i]@.contains(j)]
        0 <= j < out.len() ==> (out[j]@.contains(i) <==> (0 <= i < rows.len() && rows[i]@.contains(
            j)))
}

/// For each tile, the tiles reachable by an unblockable move.
#[derive(Debug, PartialEq, Clone)]
pub struct JumpTable(pub Vec<BitBoard>);

impl JumpTable {
    pub fn new(val: Vec<BitBoard>) -> (r: Self)
        ensures
            r.0@ == val@,
    {
        Self(val)
    }

    /// The table with `num_tiles` empty boards.
    pub fn empty(num_tiles: usize) -> (r: Self)
        ensures
            r.0@.len() == num_tiles,
            forall|i: int| 0 <= i < num_tiles ==> #[trigger] r.0@[i] == BitBoard(0),
    {
        let mut v: Vec<BitBoard> = Vec::new();
        let mut i: usize = 0;
        while i < num_tiles
            invariant
                i <= num_tiles,
                v@.len() == i,
                forall|k: int| 0 <= k < i ==> #[trigger] v@[k] == BitBoard(0),
            decreases num_tiles - i,
        {
            v.push(BitBoard::empty());
            i = i + 1;
        }
        Self::new(v)
    }

    pub fn num_tiles(&self) -> (r: usize)
        ensures
            r == self.0@.len(),
    {
        return self.0.len();
    }

    /// The board of one tile.
    pub fn get(&self, tile: TileIndex) -> (r: BitBoard)
        requires
            tile.0 < self.0@.len(),
        ensures
            r == self.0@[tile.0 as int],
    {
        self.0[tile.index()]
    }

    /// The reverse relation: for each tile, the tiles from which it can be
    /// reached.
    pub fn reverse(&self) -> (r: Self)
        requires
            self.0@.len() <= 128,
            rows_within(self.0@, self.0@.len() as int),
        ensures
            is_transpose(r.0@, self.0@),
    {
        let num_tiles = self.num_tiles();
        let mut output = Self::empty(num_tiles);
        proof {
            assert forall|j: int, i: int| 0 <= j < num_tiles implies !#[trigger] output.0@[j]@.contains(i) by {
                lemma_board_ops(output.0@[j], output.0@[j]);
                assert(BitBoard(0)@ =~= Set::<int>::empty()) by {
                    assert forall|x: int| !BitBoard(0)@.contains(x) by {
                        crate::bits::lemma_has_bit_zero(x);
                    }
                }
            }
        }
        let mut source_tile: usize = 0;
        while source_tile < num_tiles
            invariant
                num_tiles == self.0@.len(),
                num_tiles <= 128,
                source_tile <= num_tiles,
                rows_within(self.0@, num_tiles as int),
                output.0@.len() == num_tiles,
                forall|j: int, i: int|
                    0 <= j < num_tiles ==> (#[trigger] output.0@[j]@.contains(i) <==> (0 <= i
                        < source_tile && self.0@[i]@.contains(j))),
            decreases num_tiles - source_tile,
        {
            let row = self.0[source_tile];
            let mut tiles = BitBoardTiles::new(row);
            loop
                invariant
                    num_tiles == self.0@.len(),
                    num_tiles <= 128,
                    source_tile < num_tiles,
                    rows_within(self.0@, num_tiles as int),
                    row == self.0@[source_tile as int],
                    output.0@.len() == num_tiles,
                    tiles@.finite(),
                    tiles@.subset_of(row@),
                    forall|j: int, i: int|
                        0 <= j < num_tiles ==> (#[trigger] output.0@[j]@.contains(i) <==> ((0 <= i
                            < source_tile && self.0@[i]@.contains(j)) || (i == source_tile
                            && row@.contains(j) && !tiles@.contains(j)))),
                ensures
                    output.0@.len() == num_tiles,
                    forall|j: int, i: int|
                        0 <= j < num_tiles ==> (#[trigger] output.0@[j]@.contains(i) <==> (0 <= i
                            <= source_tile && self.0@[i]@.contains(j))),
                decreases tiles@.len(),
            {
                match tiles.next() {
                    None => {
                        break ;
                    },
                    Some(to_tile) => {
                        let ghost before = output.0@;
                        let to = to_tile.index();
                        assert(to < num_tiles);
                        let mut board = output.0[to];
                        board.flip_bit_at_tile_index(TileIndex::new(source_tile));
                        output.0.set(to, board);
                        proof {
                            assert forall|j: int, i: int| 0 <= j < num_tiles implies (
                            #[trigger] output.0@[j]@.contains(i) <==> ((0 <= i < source_tile
                                && self.0@[i]@.contains(j)) || (i == source_tile && row@.contains(
                                j) && !tiles@.contains(j)))) by {
                                if j != to {
                                    assert(output.0@[j] == before[j]);
                                }
                            }
                        }
                    },
                }
            }
            source_tile = source_tile + 1;
        }
        output
    }
}

/// Whether `x` (as a set of tiles) is a subset of the board `m`.
pub open spec fn subset_of_board(x: u128, m: BitBoard) -> bool {
    BitBoard(x)@.subset_of(m@)
}

/// A slide map is usable when it knows the unblocked moves (under the empty
/// blocker set) and the moves under every set of blockers on those tiles.
pub open spec fn slide_map_complete(map: Map<u128, BitBoard>) -> bool {
    &&& map.contains_key(0u128)
    &&& forall|x: u128| subset_of_board(x, map[0u128]) ==> #[trigger] map.contains_key(x)
}

/// For each tile, a map from the blockers on its ray to the tiles it can
/// reach in one direction.
#[derive(Debug, Clone)]
pub struct DirectionalSlideTable(pub Vec<HashMap<u128, BitBoard>>);

impl DirectionalSlideTable {
    /// Every tile's map is usable.
    pub open spec fn complete(&self) -> bool {
        forall|i: int| 0 <= i < self.0@.len() ==> slide_map_complete(#[trigger] self.0@[i]@)
    }

    /// Every tile's map holds the moves for no blockers.
    pub open spec fn has_unblocked(&self) -> bool {
        forall|i: int| 0 <= i < self.0@.len() ==> (#[trigger] self.0@[i])@.contains_key(0u128)
    }

    /// The unblocked moves of each tile.
    pub open spec fn unblocked_rows(&self) -> Seq<BitBoard> {
        Seq::new(self.0@.len(), |i: int| self.0@[i]@[0u128])
    }

    pub fn new(val: Vec<HashMap<u128, BitBoard>>) -> (r: Self)
        ensures
            r.0@ == val@,
    {
        return Self(val);
    }

    /// The moves from `tile` when `blockers` are on its ray, if the map knows
    /// that blocker set.
    pub fn get(&self, tile: TileIndex, blockers: &BitBoard) -> (r: Option<BitBoard>)
        requires
            tile.0 < self.0@.len(),
        ensures
            r == (if self.0@[tile.0 as int]@.contains_key(blockers.0) {
                Some(self.0@[tile.0 as int]@[blockers.0])
            } else {
                None
            }),
    {
        match self.0[tile.index()].get(&blockers.0) {
            Some(b) => Some(*b),
            None => None,
        }
    }

    /// The reverse of the unblocked moves: for each tile, the tiles from which
    /// a slide in this direction reaches it when nothing is in the way.
    pub fn reverse(&self) -> (r: JumpTable)
        requires
            self.has_unblocked(),
            self.0@.len() <= 128,
            rows_within(self.unblocked_rows(), self.0@.len() as int),
        ensures
            is_transpose(r.0@, self.unblocked_rows()),
    {
        let mut rows: Vec<BitBoard> = Vec::new();
        let mut i: usize = 0;
        while i < self.0.len()
            invariant
                i <= self.0@.len(),
                self.has_unblocked(),
                rows@.len() == i,
                forall|k: int| 0 <= k < i ==> #[trigger] rows@[k] == self.unblocked_rows()[k],
            decreases self.0@.len() - i,
        {
            let unblocked = *self.0[i].get(&0u128).unwrap();
            rows.push(unblocked);
            i = i + 1;
        }
        proof {
            assert(rows@ =~= self.unblocked_rows());
        }
        JumpTable::new(rows).reverse()
    }
}

/// The tiles a slide in direction-table `table` reaches from `tile` when the
/// tiles of `occupied` are taken.
pub open spec fn slide_moves(table: DirectionalSlideTable, tile: int, occupied: BitBoard) -> BitBoard {
    let map = table.0@[tile]@;
    map[occupied.0 & map[0u128].0]
}

/// Whether direction `d` is among those a query for orthogonal and/or
/// diagonal slides looks at: the even directions for orthogonals, the odd
/// ones for diagonals, all of them for both (and the odd ones when neither is
/// asked for).
pub open spec fn direction_selected(d: int, orthogonals: bool, diagonals: bool) -> bool {
    if orthogonals && diagonals {
        true
    } else if orthogonals {
        d % 2 == 0
    } else {
        d % 2 == 1
    }
}

/// One directional table per direction.
#[derive(Debug, Clone)]
pub struct SlideTables(pub Vec<DirectionalSlideTable>);

impl SlideTables {
    /// Every directional table covers `n` tiles and is usable.
    pub open spec fn wf(&self, n: int) -> bool {
        forall|d: int|
            0 <= d < self.0@.len() ==> (#[trigger] self.0@[d]).complete() && self.0@[d].0@.len()
                == n
    }

    /// The tiles reached from `tile` by sliding in the selected directions.
    pub open spec fn query_spec(
        &self,
        tile: int,
        occupied: BitBoard,
        orthogonals: bool,
        diagonals: bool,
    ) -> Set<int> {
        Set::new(
            |t: int|
                exists|d: int|
                    0 <= d < self.0@.len() && direction_selected(d, orthogonals, diagonals)
                        && #[trigger] slide_moves(self.0@[d], tile, occupied)@.contains(t),
        )
    }

    pub fn new(val: Vec<DirectionalSlideTable>) -> (r: Self)
        ensures
            r.0@ == val@,
    {
        return Self(val);
    }

    /// Every directional table is usable and covers `tile`.
    pub open spec fn covers(&self, tile: int) -> bool {
        forall|d: int|
            0 <= d < self.0@.len() ==> (#[trigger] self.0@[d]).complete() && 0 <= tile
                < self.0@[d].0@.len()
    }

    /// The union, over the selected directions, of the tiles a slide from
    /// `source_tile` reaches given the occupied tiles (a blocking tile is
    /// included, as it may be captured).
    pub fn query(
        &self,
        source_tile: &TileIndex,
        occupied: &BitBoard,
        orthogonals: bool,
        diagonals: bool,
    ) -> (r: BitBoard)
        requires
            self.covers(source_tile.0 as int),
        ensures
            r@ == self.query_spec(source_tile.0 as int, *occupied, orthogonals, diagonals),
    {
        let mut result = BitBoard::empty();
        let initial_direction: usize = if orthogonals {
            0
        } else {
            1
        };
        let direction_step: usize = if orthogonals && diagonals {
            1
        } else {
            2
        };
        let len = self.0.len();
        let mut direction = initial_direction;
        let ghost tile = source_tile.0 as int;
        proof {
            assert(result@ =~= Set::new(
                |t: int|
                    exists|d: int|
                        0 <= d < direction && d < len && direction_selected(d, orthogonals, diagonals)
                            && #[trigger] slide_moves(self.0@[d], tile, *occupied)@.contains(t),
            ));
        }
        while direction < len
            invariant
                len == self.0@.len(),
                self.covers(tile),
                tile == source_tile.0,
                initial_direction == (if orthogonals { 0usize } else { 1usize }),
                direction_step == (if orthogonals && diagonals { 1usize } else { 2usize }),
                direction_step == 1 ==> direction >= initial_direction,
                direction_step == 2 && direction < len ==> direction % 2 == initial_direction,
                result@ == Set::new(
                    |t: int|
                        exists|d: int|
                            0 <= d < direction && d < len && direction_selected(
                                d,
                                orthogonals,
                                diagonals,
                            ) && #[trigger] slide_moves(self.0@[d], tile, *occupied)@.contains(t),
                ),
            decreases len - direction,
        {
            let map = &self.0[direction].0[source_tile.index()];
            proof {
                assert(self.0@[direction as int].complete());
                assert(slide_map_complete(map@));
            }
            let unblocked = *map.get(&0u128).unwrap();
            let blockers = occupied.0 & unblocked.0;
            proof {
                lemma_board_ops(*occupied, unblocked);
                assert(subset_of_board(blockers, map@[0u128]));
            }
            let blocked = *map.get(&blockers).unwrap();
            let ghost before = result;
            proof {
                lemma_board_ops(result, blocked);
            }
            result = result | blocked;
            let ghost old_direction = direction as int;
            if len - direction <= direction_step {
                direction = len;
            } else {
                direction = direction + direction_step;
            }
            proof {
                assert(blocked == slide_moves(self.0@[old_direction], tile, *occupied));
                assert(direction_selected(old_direction, orthogonals, diagonals));
                assert forall|d: int|
                    old_direction < d < direction && d < len implies !direction_selected(
                    d,
                    orthogonals,
                    diagonals,
                ) by {}
                assert forall|t: int| result@.contains(t) <==> (exists|d: int|
                    0 <= d < direction && d < len && direction_selected(d, orthogonals, diagonals)
                        && #[trigger] slide_moves(self.0@[d], tile, *occupied)@.contains(t)) by {
                    if result@.contains(t) && !before@.contains(t) {
                        assert(slide_moves(self.0@[old_direction], tile, *occupied)@.contains(t));
                    }
                }
                assert(result@ =~= Set::new(
                    |t: int|
                        exists|d: int|
                            0 <= d < direction && d < len && direction_selected(
                                d,
                                orthogonals,
                                diagonals,
                            ) && #[trigger] slide_moves(self.0@[d], tile, *occupied)@.contains(t),
                ));
            }
        }
        proof {
            assert(result@ =~= self.query_spec(tile, *occupied, orthogonals, diagonals)) by {
                assert forall|t: int| #![auto] self.query_spec(tile, *occupied, orthogonals, diagonals).contains(t) implies result@.contains(t) by {
                    let d = choose|d: int|
                        0 <= d < self.0@.len() && direction_selected(d, orthogonals, diagonals)
                            && #[trigger] slide_moves(self.0@[d], tile, *occupied)@.contains(t);
                    if direction_step == 2 {
                        assert(d % 2 == initial_direction);
                    }
                }
            }
        }
        result
    }

    /// The reverse unblocked moves of each direction.
    pub fn reverse(&self) -> (r: Vec<JumpTable>)
        requires
            self.0@.len() <= usize::MAX,
            forall|d: int|
                0 <= d < self.0@.len() ==> {
                    &&& (#[trigger] self.0@[d]).has_unblocked()
                    &&& self.0@[d].0@.len() <= 128
                    &&& rows_within(self.0@[d].unblocked_rows(), self.0@[d].0@.len() as int)
                },
        ensures
            r@.len() == self.0@.len(),
            forall|d: int|
                0 <= d < self.0@.len() ==> is_transpose(
                    (#[trigger] r@[d]).0@,
                    self.0@[d].unblocked_rows(),
                ),
    {
        let mut output: Vec<JumpTable> = Vec::new();
        let mut d: usize = 0;
        while d < self.0.len()
            invariant
                d <= self.0@.len(),
                output@.len() == d,
                forall|k: int|
                    0 <= k < self.0@.len() ==> {
                        &&& (#[trigger] self.0@[k]).has_unblocked()
                        &&& self.0@[k].0@.len() <= 128
                        &&& rows_within(self.0@[k].unblocked_rows(), self.0@[k].0@.len() as int)
                    },
                forall|k: int|
                    0 <= k < d ==> is_transpose(
                        (#[trigger] output@[k]).0@,
                        self.0@[k].unblocked_rows(),
                    ),
            decreases self.0@.len() - d,
        {
            output.push(self.0[d].reverse());
            d = d + 1;
        }
        output
    }
}

/// The move tables of one colour's pawns. `promotion_board` holds the tiles
/// from which a pawn has no single step forward: reaching them promotes.
#[derive(Debug, Clone)]
pub struct PawnTables {
    pub single_table: JumpTable,
    pub double_table: DirectionalSlideTable,
    pub attack_table: JumpTable,
    pub promotion_board: BitBoard,
}

impl PawnTables {
    /// The tiles, among the first `n`, from which a pawn has no single step.
    pub open spec fn promotion_tiles(single: Seq<BitBoard>) -> Set<int> {
        Set::new(|t: int| 0 <= t < single.len() && single[t]@ == Set::<int>::empty())
    }

    /// Bundles the tables; the promotion board is derived from the single-step
    /// table.
    pub fn new(single_table: JumpTable, double_table: DirectionalSlideTable, attack_table: JumpTable) -> (r: Self)
        requires
            single_table.0@.len() <= 128,
        ensures
            r.single_table == single_table,
            r.double_table == double_table,
            r.attack_table == attack_table,
            r.promotion_board@ == Self::promotion_tiles(single_table.0@),
    {
        let mut promotion_board = BitBoard::empty();
        let mut t: usize = 0;
        while t < single_table.0.len()
            invariant
                t <= single_table.0@.len() <= 128,
                promotion_board@ == Set::new(
                    |i: int| 0 <= i < t && single_table.0@[i]@ == Set::<int>::empty(),
                ),
            decreases single_table.0@.len() - t,
        {
            if single_table.0[t].is_zero() {
                let ghost before = promotion_board@;
                promotion_board.flip_bit_at_tile_index(TileIndex::new(t));
                proof {
                    assert(!before.contains(t as int));
                }
            }
            proof {
                assert(promotion_board@ =~= Set::new(
                    |i: int| 0 <= i < t + 1 && single_table.0@[i]@ == Set::<int>::empty(),
                ));
            }
            t = t + 1;
        }
        proof {
            assert(promotion_board@ =~= Self::promotion_tiles(single_table.0@));
        }
        Self { single_table, double_table, attack_table, promotion_board }
    }
}

/// Reversing a table twice gives the table back.
pub proof fn lemma_reverse_involution(rows: Seq<BitBoard>, once: Seq<BitBoard>, twice: Seq<BitBoard>)
    requires
        rows_within(rows, rows.len() as int),
        is_transpose(once, rows),
        is_transpose(twice, once),
    ensures
        twice == rows,
        rows_within(once, once.len() as int),
{
    assert forall|j: int, t: int| 0 <= j < once.len() && #[trigger] once[j]@.contains(t) implies 0 <= t
        < once.len() by {}
    assert forall|k: int| 0 <= k < rows.len() implies twice[k] == rows[k] by {
        assert(twice[k]@ =~= rows[k]@) by {
            assert forall|i: int| twice[k]@.contains(i) <==> rows[k]@.contains(i) by {
                if rows[k]@.contains(i) {
                    assert(0 <= i < rows.len());
                    assert(once[i]@.contains(k));
                }
                if twice[k]@.contains(i) {
                    assert(once[i]@.contains(k));
                }
            }
        }
        crate::bit_board::lemma_view_ext(twice[k], rows[k]);
    }
    assert(twice =~= rows);
}

} // verus!
