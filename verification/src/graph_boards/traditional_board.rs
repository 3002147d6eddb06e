use vstd::prelude::*;

use crate::graph_boards::graph_board::{
    board_edges, lemma_valid_directions, tile_edges, valid_directions, GraphBoard, Tile, TileIndex,
};
use crate::limited_int::LimitedInt;
use crate::piece_set::Color;

verus! {

/// A direction of the board: 0 is forward for white, and they turn
/// counter-clockwise.
pub type TraditionalDirection = LimitedInt<8>;

/// The tile of index `t` of the traditional board: white pawns start on the
/// second rank, black pawns on the seventh.
pub open spec fn traditional_tile(t: int) -> (u8, Option<Color>) {
    (0u8, if t / 8 == 1 {
        Some(Color::White)
    } else if t / 8 == 6 {
        Some(Color::Black)
    } else {
        None
    })
}

/// The directions leading off the board from tile `t`: 1 to 3 on the
/// first file, 5 to 7 on the last, 3 to 5 on the first rank, 7, 0 and 1 on
/// the last. Direction 0 is forward for white and they turn
/// counter-clockwise; even directions are orthogonal, odd ones diagonal.
pub open spec fn traditional_invalid(t: int) -> Set<int> {
    (if t % 8 == 0 {
        set![1int, 2, 3]
    } else if t % 8 == 7 {
        set![5int, 6, 7]
    } else {
        Set::empty()
    }).union(
        if t <= 7 {
            set![3int, 4, 5]
        } else if t >= 56 {
            set![1int, 0, 7]
        } else {
            Set::empty()
        },
    )
}

pub open spec fn traditional_validity() -> spec_fn(int, int) -> bool {
    |t: int, d: int| !traditional_invalid(t).contains(d)
}

/// The change of tile index of a step in direction `d`: 8 per rank, 1 per
/// file.
pub open spec fn traditional_shift(d: int) -> int {
    let sign = if 2 <= d <= 5 {
        -1int
    } else {
        1int
    };
    let shift = if d % 4 == 0 {
        8int
    } else if d % 4 == 1 {
        7int
    } else if d % 4 == 2 {
        1int
    } else {
        9int
    };
    shift * sign
}

pub open spec fn traditional_shifts() -> spec_fn(int, int) -> int {
    |t: int, d: int| traditional_shift(d)
}

proof fn lemma_traditional_step_in_board(t: int, d: int)
    requires
        0 <= t < 64,
        0 <= d < 8,
        !traditional_invalid(t).contains(d),
    ensures
        0 <= t + traditional_shift(d) < 64,
{
    if t % 8 == 0 {
        assert(set![1int, 2, 3].contains(1) && set![1int, 2, 3].contains(2) && set![1int, 2, 3].contains(3));
    } else if t % 8 == 7 {
        assert(set![5int, 6, 7].contains(5) && set![5int, 6, 7].contains(6) && set![5int, 6, 7].contains(7));
    }
    if t <= 7 {
        assert(set![3int, 4, 5].contains(3) && set![3int, 4, 5].contains(4) && set![3int, 4, 5].contains(5));
    } else if t >= 56 {
        assert(set![1int, 0, 7].contains(1) && set![1int, 0, 7].contains(0) && set![1int, 0, 7].contains(7));
    }
}

/// The traditional 8 by 8 board, tiles numbered rank by rank from white's
/// side.
pub struct TraditionalBoardGraph(pub GraphBoard<1, 8>);

impl TraditionalBoardGraph {
    /// The board with its 64 tiles and an edge for every step that stays on
    /// the board.
    pub fn new() -> (r: Self)
        ensures
            r.0.wf(),
            r.0.nodes() == Seq::new(64, |t: int| traditional_tile(t)),
            r.0.edges() == board_edges(traditional_validity(), traditional_shifts(), 64, 8),
    {
        let mut board_graph = GraphBoard::<1, 8>::new();
        let mut tile: usize = 0;
        while tile < 64
            invariant
                tile <= 64,
                board_graph.nodes() == Seq::new(tile as nat, |t: int| traditional_tile(t)),
                board_graph.edges() == Seq::<(usize, usize, u8)>::empty(),
            decreases 64 - tile,
        {
            board_graph.add_node(Self::new_tile(TileIndex::new(tile)));
            proof {
                assert(board_graph.nodes() =~= Seq::new((tile + 1) as nat, |t: int| traditional_tile(t)));
            }
            tile = tile + 1;
        }
        let n = board_graph.node_count();
        let mut t: usize = 0;
        while t < n
            invariant
                n == 64,
                t <= n,
                board_graph.nodes() == Seq::new(64, |t: int| traditional_tile(t)),
                board_graph.edges() == board_edges(traditional_validity(), traditional_shifts(), t as int, 8),
                board_graph.edges().len() <= 8 * t,
                forall|i: int|
                    0 <= i < board_graph.edges().len() ==> {
                        &&& (#[trigger] board_graph.edges()[i]).0 < 64
                        &&& board_graph.edges()[i].1 < 64
                        &&& board_graph.edges()[i].2 < 8
                    },
            decreases n - t,
        {
            let directions = Self::get_valid_directions(TileIndex::new(t));
            let ghost base = board_graph.edges();
            let ghost dirs = valid_directions(traditional_validity(), t as int, 8);
            proof {
                lemma_valid_directions(traditional_validity(), t as int, 8);
            }
            let mut j: usize = 0;
            while j < directions.len()
                invariant
                    t < 64,
                    j <= directions@.len(),
                    directions@.len() == dirs.len(),
                    dirs == valid_directions(traditional_validity(), t as int, 8),
                    dirs.len() <= 8,
                    forall|i: int| 0 <= i < dirs.len() ==> (#[trigger] directions@[i]).0 == dirs[i],
                    forall|i: int|
                        0 <= i < dirs.len() ==> 0 <= #[trigger] dirs[i] < 8 && !traditional_invalid(t as int).contains(dirs[i]),
                    base == board_edges(traditional_validity(), traditional_shifts(), t as int, 8),
                    base.len() <= 8 * t,
                    board_graph.nodes() == Seq::new(64, |t: int| traditional_tile(t)),
                    board_graph.edges() == base + tile_edges(traditional_validity(), traditional_shifts(), t as int, 8).take(j as int),
                    forall|i: int|
                        0 <= i < board_graph.edges().len() ==> {
                            &&& (#[trigger] board_graph.edges()[i]).0 < 64
                            &&& board_graph.edges()[i].1 < 64
                            &&& board_graph.edges()[i].2 < 8
                        },
                decreases directions@.len() - j,
            {
                let direction = directions[j];
                let shift = Self::get_tile_index_shift(&direction);
                proof {
                    lemma_traditional_step_in_board(t as int, direction.0 as int);
                }
                let other = (t as i32 + shift) as usize;
                board_graph.add_edge(TileIndex::new(t), TileIndex::new(other), direction);
                proof {
                    let te = tile_edges(traditional_validity(), traditional_shifts(), t as int, 8);
                    assert(te.take(j as int + 1) =~= te.take(j as int).push(te[j as int]));
                    assert(board_graph.edges() =~= base + te.take(j as int + 1));
                }
                j = j + 1;
            }
            proof {
                let te = tile_edges(traditional_validity(), traditional_shifts(), t as int, 8);
                assert(te.take(dirs.len() as int) =~= te);
            }
            t = t + 1;
        }
        TraditionalBoardGraph(board_graph)
    }

    fn new_tile(source_tile: TileIndex) -> (r: Tile<1>)
        ensures
            (r.orientation.0, r.pawn_start) == traditional_tile(source_tile.0 as int),
    {
        if source_tile.index() / 8 == 1 {
            Tile { orientation: LimitedInt::new(0), pawn_start: Some(Color::White) }
        } else if source_tile.index() / 8 == 6 {
            Tile { orientation: LimitedInt::new(0), pawn_start: Some(Color::Black) }
        } else {
            Tile { orientation: LimitedInt::new(0), pawn_start: None }
        }
    }

    fn is_valid_direction(source_tile: TileIndex, direction: u8) -> (r: bool)
        ensures
            r == !traditional_invalid(source_tile.0 as int).contains(direction as int),
    {
        let mut invalid = false;
        if source_tile.index() % 8 == 0 {
            invalid = invalid || direction == 1 || direction == 2 || direction == 3;
        } else if source_tile.index() % 8 == 7 {
            invalid = invalid || direction == 5 || direction == 6 || direction == 7;
        }
        if source_tile.index() <= 7 {
            invalid = invalid || direction == 3 || direction == 4 || direction == 5;
        } else if source_tile.index() >= 56 {
            invalid = invalid || direction == 1 || direction == 0 || direction == 7;
        }
        !invalid
    }

    /// The directions in which a step from `source_tile` stays on the board,
    /// in increasing order.
    fn get_valid_directions(source_tile: TileIndex) -> (r: Vec<LimitedInt<8>>)
        ensures
            r@.len() == valid_directions(traditional_validity(), source_tile.0 as int, 8).len(),
            forall|i: int|
                0 <= i < r@.len() ==> (#[trigger] r@[i]).0 == valid_directions(traditional_validity(), source_tile.0 as int, 8)[i],
    {
        let all = LimitedInt::<8>::all_values();
        let mut result: Vec<LimitedInt<8>> = Vec::new();
        let mut d: usize = 0;
        while d < all.len()
            invariant
                d <= all@.len(),
                all@.len() == 8,
                forall|i: int| 0 <= i < 8 ==> (#[trigger] all@[i]).0 == i,
                result@.len() == valid_directions(traditional_validity(), source_tile.0 as int, d as int).len(),
                forall|i: int|
                    0 <= i < result@.len() ==> (#[trigger] result@[i]).0 == valid_directions(
                        traditional_validity(),
                        source_tile.0 as int,
                        d as int,
                    )[i],
            decreases all@.len() - d,
        {
            let direction = all[d];
            if Self::is_valid_direction(source_tile, direction.0) {
                result.push(direction);
            }
            d = d + 1;
        }
        result
    }

    /// The change of tile index of a step in `direction`.
    fn get_tile_index_shift(direction: &LimitedInt<8>) -> (r: i32)
        requires
            direction.0 < 8,
        ensures
            r == traditional_shift(direction.0 as int),
    {
        let sign: i32 = if 2 <= direction.0 && direction.0 <= 5 {
            -1
        } else {
            1
        };
        let m = direction.0 % 4;
        let shift: i32 = if m == 0 {
            8
        } else if m == 1 {
            7
        } else if m == 2 {
            1
        } else {
            9
        };
        shift * sign
    }
}

} // verus!
