use vstd::prelude::*;

use crate::graph_boards::graph_board::{
    board_edges, lemma_valid_directions, tile_edges, valid_directions, GraphBoard, Tile, TileIndex,
};
use crate::limited_int::LimitedInt;
use crate::piece_set::Color;

verus! {

/// A direction of the board: 0 is forward for white, and they turn
/// counter-clockwise.
pub type TriangularDirection = LimitedInt<6>;

/// The number of tiles of the row of tile `t` of the triangular board (rows
/// of 10 tiles down to 1, 55 tiles in all).
pub open spec fn triangle_row_length(t: int) -> int {
    if 0 <= t <= 9 {
        10
    } else if 10 <= t <= 18 {
        9
    } else if 19 <= t <= 26 {
        8
    } else if 27 <= t <= 33 {
        7
    } else if 34 <= t <= 39 {
        6
    } else if 40 <= t <= 44 {
        5
    } else if 45 <= t <= 48 {
        4
    } else if 49 <= t <= 51 {
        3
    } else if 52 <= t <= 53 {
        2
    } else if t == 54 {
        1
    } else {
        0
    }
}

/// The tile of index `t` of the triangular board and the color whose pawns
/// start on it.
pub open spec fn triangle_tile(t: int) -> (u8, Option<Color>) {
    (0u8, if t == 3 || t == 12 || t == 20 || t == 27 {
        Some(Color::White)
    } else if t == 6 || t == 16 || t == 25 || t == 33 {
        Some(Color::Black)
    } else {
        None
    })
}

/// The directions leading off the triangular board from tile `t`: 4 and 5
/// on the first row, 2 and 3 at the start of a row, 0 and 1 at its end.
pub open spec fn triangle_invalid(t: int) -> Set<int> {
    (if 0 <= t <= 9 {
        set![4int, 5]
    } else {
        Set::empty()
    }).union(
        if t == 0 || t == 10 || t == 19 || t == 27 || t == 34 || t == 40 || t == 45 || t == 49 || t == 52 || t == 54 {
            set![2int, 3]
        } else {
            Set::empty()
        },
    ).union(
        if t == 9 || t == 18 || t == 26 || t == 33 || t == 39 || t == 44 || t == 48 || t == 51 || t == 53 || t == 54 {
            set![0int, 1]
        } else {
            Set::empty()
        },
    )
}

pub open spec fn triangle_validity() -> spec_fn(int, int) -> bool {
    |t: int, d: int| !triangle_invalid(t).contains(d)
}

/// The change of tile index of a step from tile `t` in direction `d`.
pub open spec fn triangle_shift(t: int, d: int) -> int {
    let row = triangle_row_length(t);
    if d == 0 {
        1
    } else if d == 1 {
        row
    } else if d == 2 {
        row - 1
    } else if d == 3 {
        -1
    } else if d == 4 {
        -row - 1
    } else if d == 5 {
        -row
    } else {
        0
    }
}

pub open spec fn triangle_shifts() -> spec_fn(int, int) -> int {
    |t: int, d: int| triangle_shift(t, d)
}

proof fn lemma_triangle_step_in_board(t: int, d: int)
    requires
        0 <= t < 55,
        0 <= d < 6,
        !triangle_invalid(t).contains(d),
    ensures
        0 <= t + triangle_shift(t, d) < 55,
{
}

/// The triangular board of 55 tiles with six directions.
pub struct UniformTriangleBoardGraph(pub GraphBoard<1, 6>);

impl UniformTriangleBoardGraph {
    /// The triangular board with its 55 tiles and an edge for every step that
    /// stays on the board.
    pub fn new() -> (r: Self)
        ensures
            r.0.wf(),
            r.0.nodes() == Seq::new(55, |t: int| triangle_tile(t)),
            r.0.edges() == board_edges(triangle_validity(), triangle_shifts(), 55, 6),
    {
        let mut board_graph = GraphBoard::<1, 6>::new();
        let mut tile: usize = 0;
        while tile < 55
            invariant
                tile <= 55,
                board_graph.nodes() == Seq::new(tile as nat, |t: int| triangle_tile(t)),
                board_graph.edges() == Seq::<(usize, usize, u8)>::empty(),
            decreases 55 - tile,
        {
            board_graph.add_node(Self::new_tile(TileIndex::new(tile)));
            proof {
                assert(board_graph.nodes() =~= Seq::new((tile + 1) as nat, |t: int| triangle_tile(t)));
            }
            tile = tile + 1;
        }
        let n = board_graph.node_count();
        let mut t: usize = 0;
        while t < n
            invariant
                n == 55,
                t <= n,
                board_graph.nodes() == Seq::new(55, |t: int| triangle_tile(t)),
                board_graph.edges() == board_edges(triangle_validity(), triangle_shifts(), t as int, 6),
                board_graph.edges().len() <= 6 * t,
                forall|i: int|
                    0 <= i < board_graph.edges().len() ==> {
                        &&& (#[trigger] board_graph.edges()[i]).0 < 55
                        &&& board_graph.edges()[i].1 < 55
                        &&& board_graph.edges()[i].2 < 6
                    },
            decreases n - t,
        {
            let directions = Self::get_valid_directions(TileIndex::new(t));
            let ghost base = board_graph.edges();
            let ghost dirs = valid_directions(triangle_validity(), t as int, 6);
            proof {
                lemma_valid_directions(triangle_validity(), t as int, 6);
            }
            let mut j: usize = 0;
            while j < directions.len()
                invariant
                    t < 55,
                    j <= directions@.len(),
                    directions@.len() == dirs.len(),
                    dirs == valid_directions(triangle_validity(), t as int, 6),
                    dirs.len() <= 6,
                    forall|i: int| 0 <= i < dirs.len() ==> (#[trigger] directions@[i]).0 == dirs[i],
                    forall|i: int|
                        0 <= i < dirs.len() ==> 0 <= #[trigger] dirs[i] < 6 && triangle_validity()(t as int, dirs[i]),
                    base == board_edges(triangle_validity(), triangle_shifts(), t as int, 6),
                    base.len() <= 6 * t,
                    board_graph.nodes() == Seq::new(55, |t: int| triangle_tile(t)),
                    board_graph.edges() == base + tile_edges(triangle_validity(), triangle_shifts(), t as int, 6).take(j as int),
                    forall|i: int|
                        0 <= i < board_graph.edges().len() ==> {
                            &&& (#[trigger] board_graph.edges()[i]).0 < 55
                            &&& board_graph.edges()[i].1 < 55
                            &&& board_graph.edges()[i].2 < 6
                        },
                decreases directions@.len() - j,
            {
                let direction = directions[j];
                let shift = Self::get_tile_index_shift(TileIndex::new(t), &direction);
                proof {
                    lemma_triangle_step_in_board(t as int, direction.0 as int);
                }
                let other = (t as i32 + shift) as usize;
                board_graph.add_edge(TileIndex::new(t), TileIndex::new(other), direction);
                proof {
                    let te = tile_edges(triangle_validity(), triangle_shifts(), t as int, 6);
                    assert(te.take(j as int + 1) =~= te.take(j as int).push(te[j as int]));
                    assert(board_graph.edges() =~= base + te.take(j as int + 1));
                }
                j = j + 1;
            }
            proof {
                let te = tile_edges(triangle_validity(), triangle_shifts(), t as int, 6);
                assert(te.take(dirs.len() as int) =~= te);
            }
            t = t + 1;
        }
        Self(board_graph)
    }

    fn row_length(n: TileIndex) -> (r: i32)
        requires
            n.0 < 55,
        ensures
            r == triangle_row_length(n.0 as int),
    {
        let t = n.index();
        if t <= 9 {
            10
        } else if t <= 18 {
            9
        } else if t <= 26 {
            8
        } else if t <= 33 {
            7
        } else if t <= 39 {
            6
        } else if t <= 44 {
            5
        } else if t <= 48 {
            4
        } else if t <= 51 {
            3
        } else if t <= 53 {
            2
        } else {
            1
        }
    }

    fn new_tile(source: TileIndex) -> (r: Tile<1>)
        ensures
            (r.orientation.0, r.pawn_start) == triangle_tile(source.0 as int),
    {
        let t = source.index();
        let pawn_start = if t == 3 || t == 12 || t == 20 || t == 27 {
            Some(Color::White)
        } else if t == 6 || t == 16 || t == 25 || t == 33 {
            Some(Color::Black)
        } else {
            None
        };
        Tile { orientation: LimitedInt::new(0), pawn_start }
    }

    fn is_valid_direction(source: TileIndex, d: u8) -> (r: bool)
        ensures
            r == !triangle_invalid(source.0 as int).contains(d as int),
    {
        let t = source.index();
        let mut invalid = false;
        if t <= 9 {
            invalid = invalid || d == 4 || d == 5;
        }
        if t == 0 || t == 10 || t == 19 || t == 27 || t == 34 || t == 40 || t == 45 || t == 49 || t == 52 || t == 54 {
            invalid = invalid || d == 2 || d == 3;
        }
        if t == 9 || t == 18 || t == 26 || t == 33 || t == 39 || t == 44 || t == 48 || t == 51 || t == 53 || t == 54 {
            invalid = invalid || d == 0 || d == 1;
        }
        !invalid
    }

    /// The directions in which a step from `source_tile` stays on the board,
    /// in increasing order.
    fn get_valid_directions(source_tile: TileIndex) -> (r: Vec<LimitedInt<6>>)
        ensures
            r@.len() == valid_directions(triangle_validity(), source_tile.0 as int, 6).len(),
            forall|i: int|
                0 <= i < r@.len() ==> (#[trigger] r@[i]).0 == valid_directions(triangle_validity(), source_tile.0 as int, 6)[i],
    {
        let all = LimitedInt::<6>::all_values();
        let mut result: Vec<LimitedInt<6>> = Vec::new();
        let mut d: usize = 0;
        while d < all.len()
            invariant
                d <= all@.len(),
                all@.len() == 6,
                forall|i: int| 0 <= i < 6 ==> (#[trigger] all@[i]).0 == i,
                result@.len() == valid_directions(triangle_validity(), source_tile.0 as int, d as int).len(),
                forall|i: int|
                    0 <= i < result@.len() ==> (#[trigger] result@[i]).0 == valid_directions(
                        triangle_validity(),
                        source_tile.0 as int,
                        d as int,
                    )[i],
            decreases all@.len() - d,
        {
            let direction = all[d];
            if Self::is_valid_direction(source_tile, direction.0) {
                result.push(direction);
            }
            d = d + 1;
        }
        result
    }

    /// The change of tile index of a step from `source` in `direction`.
    fn get_tile_index_shift(source: TileIndex, direction: &LimitedInt<6>) -> (r: i32)
        requires
            source.0 < 55,
            direction.0 < 6,
        ensures
            r == triangle_shift(source.0 as int, direction.0 as int),
    {
        let row = Self::row_length(source);
        match direction.0 {
            0 => 1,
            1 => row,
            2 => row - 1,
            3 => -1,
            4 => -row - 1,
            _ => -row,
        }
    }
}

} // verus!
