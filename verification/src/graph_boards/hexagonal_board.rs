use vstd::prelude::*;

use crate::graph_boards::graph_board::{
    board_edges, lemma_valid_directions, tile_edges, valid_directions, GraphBoard, Tile, TileIndex,
};
use crate::limited_int::LimitedInt;
use crate::piece_set::Color;

verus! {

/// A direction of the board: 0 is forward for white, and they turn
/// counter-clockwise.
pub type HexagonalDirection = LimitedInt<12>;

/// The number of tiles of the row of tile `t` of the hexagonal board (rows
/// of 6 to 11 tiles and back, 91 tiles in all).
pub open spec fn hexagonal_row_length(t: int) -> int {
    if (0 <= t <= 5) || (85 <= t <= 90) {
        6
    } else if (6 <= t <= 12) || (78 <= t <= 84) {
        7
    } else if (13 <= t <= 20) || (70 <= t <= 77) {
        8
    } else if (21 <= t <= 29) || (61 <= t <= 69) {
        9
    } else if (30 <= t <= 39) || (51 <= t <= 60) {
        10
    } else if 40 <= t <= 50 {
        11
    } else {
        0
    }
}

/// The tile of index `t` of the hexagonal board and the color whose pawns
/// start on it.
pub open spec fn hexagonal_tile(t: int) -> (u8, Option<Color>) {
    (0u8, if t == 4 || t == 10 || t == 17 || t == 25 || (30 <= t <= 34) {
        Some(Color::White)
    } else if (56 <= t <= 60) || t == 65 || t == 73 || t == 80 || t == 86 {
        Some(Color::Black)
    } else {
        None
    })
}

/// The pawn-start tiles of the two colours mirror each other through the
/// centre of the board (tile 45): a tile is a white start exactly when its
/// mirror image is a black start.
pub proof fn lemma_hexagonal_pawn_starts_mirror(t: int)
    requires
        0 <= t < 91,
    ensures
        (hexagonal_tile(t).1 == Some(Color::White)) == (hexagonal_tile(90 - t).1 == Some(Color::Black)),
        (hexagonal_tile(t).1 == Some(Color::Black)) == (hexagonal_tile(90 - t).1 == Some(Color::White)),
{
}

/// The directions leading off the hexagonal board from tile `t`, by the
/// tile's place on the edge of the board (first by its place among the
/// bottom edge and the left and right corners, then among the top edge and
/// the other sides). Direction 0 is forward for white and they turn
/// counter-clockwise; even directions are orthogonal, odd ones diagonal.
pub open spec fn hexagonal_invalid(t: int) -> Set<int> {
    (if 0 <= t <= 5 {
        set![5int, 6, 7, 8, 9]
    } else if t == 50 || t == 60 || t == 69 || t == 77 || t == 84 || t == 90 {
        set![9int, 10, 11, 0, 1]
    } else if t == 40 || t == 51 || t == 61 || t == 70 || t == 78 || t == 85 {
        set![1int, 2, 3, 4, 5]
    } else if 7 <= t <= 11 {
        set![7int]
    } else if t == 49 || t == 59 || t == 68 || t == 76 || t == 83 {
        set![11int]
    } else if t == 41 || t == 52 || t == 62 || t == 71 || t == 79 {
        set![3int]
    } else {
        Set::empty()
    }).union(
        if t == 5 || t == 12 || t == 20 || t == 29 || t == 39 || t == 50 {
            set![7int, 8, 9, 10, 11]
        } else if 85 <= t <= 90 {
            set![11int, 0, 1, 2, 3]
        } else if t == 0 || t == 6 || t == 13 || t == 21 || t == 30 || t == 40 {
            set![3int, 4, 5, 6, 7]
        } else if 79 <= t <= 83 {
            set![1int]
        } else if t == 7 || t == 14 || t == 22 || t == 31 || t == 41 {
            set![5int]
        } else if t == 11 || t == 19 || t == 28 || t == 38 || t == 49 {
            set![9int]
        } else {
            Set::empty()
        },
    )
}

pub open spec fn hexagonal_validity() -> spec_fn(int, int) -> bool {
    |t: int, d: int| !hexagonal_invalid(t).contains(d)
}

/// The change of tile index of a step from tile `t` in direction `d`, by
/// the length of the tile's row and its half of the board.
pub open spec fn hexagonal_shift(t: int, d: int) -> int {
    let row = hexagonal_row_length(t);
    if d == 0 {
        if t < 40 { row + 1 } else { row }
    } else if d == 1 {
        if t < 30 { 2 * row + 2 } else if t >= 40 { 2 * row - 2 } else { 2 * row + 1 }
    } else if d == 2 {
        if t < 40 { row } else { row - 1 }
    } else if d == 3 {
        if t < 40 { row - 1 } else { row - 2 }
    } else if d == 4 {
        -1
    } else if d == 5 {
        if t < 51 { -row - 1 } else { -row - 2 }
    } else if d == 6 {
        if t < 51 { -row } else { -row - 1 }
    } else if d == 7 {
        if t >= 61 { -2 * row - 2 } else if t < 51 { -2 * row + 2 } else { -2 * row - 1 }
    } else if d == 8 {
        if t < 51 { -row + 1 } else { -row }
    } else if d == 9 {
        if t < 51 { -row + 2 } else { -row + 1 }
    } else if d == 10 {
        1
    } else if d == 11 {
        if t < 40 { row + 2 } else { row + 1 }
    } else {
        0
    }
}

pub open spec fn hexagonal_shifts() -> spec_fn(int, int) -> int {
    |t: int, d: int| hexagonal_shift(t, d)
}

proof fn lemma_hexagonal_step_in_board(t: int, d: int)
    requires
        0 <= t < 91,
        0 <= d < 12,
        !hexagonal_invalid(t).contains(d),
    ensures
        0 <= t + hexagonal_shift(t, d) < 91,
{
}

/// Every step of the hexagonal board can be taken back: from the tile it
/// reaches, the opposite direction (six further round) is a step too, and it
/// leads back to the tile it came from.
pub proof fn lemma_hexagonal_steps_reverse(t: int, d: int)
    requires
        0 <= t < 91,
        0 <= d < 12,
        !hexagonal_invalid(t).contains(d),
    ensures
        0 <= t + hexagonal_shift(t, d) < 91,
        !hexagonal_invalid(t + hexagonal_shift(t, d)).contains((d + 6) % 12),
        t + hexagonal_shift(t, d) + hexagonal_shift(t + hexagonal_shift(t, d), (d + 6) % 12) == t,
{
}

/// The hexagonal board of 91 tiles with twelve directions (six orthogonal,
/// six diagonal), numbered row by row from white's side.
pub struct HexagonalBoardGraph(pub GraphBoard<1, 12>);

impl HexagonalBoardGraph {
    /// The hexagonal board with its 91 tiles and an edge for every step that
    /// stays on the board.
    pub fn new() -> (r: Self)
        ensures
            r.0.wf(),
            r.0.nodes() == Seq::new(91, |t: int| hexagonal_tile(t)),
            r.0.edges() == board_edges(hexagonal_validity(), hexagonal_shifts(), 91, 12),
    {
        let mut board_graph = GraphBoard::<1, 12>::new();
        let mut tile: usize = 0;
        while tile < 91
            invariant
                tile <= 91,
                board_graph.nodes() == Seq::new(tile as nat, |t: int| hexagonal_tile(t)),
                board_graph.edges() == Seq::<(usize, usize, u8)>::empty(),
            decreases 91 - tile,
        {
            board_graph.add_node(Self::new_tile(TileIndex::new(tile)));
            proof {
                assert(board_graph.nodes() =~= Seq::new((tile + 1) as nat, |t: int| hexagonal_tile(t)));
            }
            tile = tile + 1;
        }
        let n = board_graph.node_count();
        let mut t: usize = 0;
        while t < n
            invariant
                n == 91,
                t <= n,
                board_graph.nodes() == Seq::new(91, |t: int| hexagonal_tile(t)),
                board_graph.edges() == board_edges(hexagonal_validity(), hexagonal_shifts(), t as int, 12),
                board_graph.edges().len() <= 12 * t,
                forall|i: int|
                    0 <= i < board_graph.edges().len() ==> {
                        &&& (#[trigger] board_graph.edges()[i]).0 < 91
                        &&& board_graph.edges()[i].1 < 91
                        &&& board_graph.edges()[i].2 < 12
                    },
            decreases n - t,
        {
            let directions = Self::get_valid_directions(TileIndex::new(t));
            let ghost base = board_graph.edges();
            let ghost dirs = valid_directions(hexagonal_validity(), t as int, 12);
            proof {
                lemma_valid_directions(hexagonal_validity(), t as int, 12);
            }
            let mut j: usize = 0;
            while j < directions.len()
                invariant
                    t < 91,
                    j <= directions@.len(),
                    directions@.len() == dirs.len(),
                    dirs == valid_directions(hexagonal_validity(), t as int, 12),
                    dirs.len() <= 12,
                    forall|i: int| 0 <= i < dirs.len() ==> (#[trigger] directions@[i]).0 == dirs[i],
                    forall|i: int|
                        0 <= i < dirs.len() ==> 0 <= #[trigger] dirs[i] < 12 && hexagonal_validity()(t as int, dirs[i]),
                    base == board_edges(hexagonal_validity(), hexagonal_shifts(), t as int, 12),
                    base.len() <= 12 * t,
                    board_graph.nodes() == Seq::new(91, |t: int| hexagonal_tile(t)),
                    board_graph.edges() == base + tile_edges(hexagonal_validity(), hexagonal_shifts(), t as int, 12).take(j as int),
                    forall|i: int|
                        0 <= i < board_graph.edges().len() ==> {
                            &&& (#[trigger] board_graph.edges()[i]).0 < 91
                            &&& board_graph.edges()[i].1 < 91
                            &&& board_graph.edges()[i].2 < 12
                        },
                decreases directions@.len() - j,
            {
                let direction = directions[j];
                let shift = Self::get_tile_index_shift(TileIndex::new(t), &direction);
                proof {
                    lemma_hexagonal_step_in_board(t as int, direction.0 as int);
                }
                let other = (t as i32 + shift) as usize;
                board_graph.add_edge(TileIndex::new(t), TileIndex::new(other), direction);
                proof {
                    let te = tile_edges(hexagonal_validity(), hexagonal_shifts(), t as int, 12);
                    assert(te.take(j as int + 1) =~= te.take(j as int).push(te[j as int]));
                    assert(board_graph.edges() =~= base + te.take(j as int + 1));
                }
                j = j + 1;
            }
            proof {
                let te = tile_edges(hexagonal_validity(), hexagonal_shifts(), t as int, 12);
                assert(te.take(dirs.len() as int) =~= te);
            }
            t = t + 1;
        }
        Self(board_graph)
    }

    fn row_length(n: TileIndex) -> (r: i32)
        requires
            n.0 < 91,
        ensures
            r == hexagonal_row_length(n.0 as int),
    {
        let t = n.index();
        if t <= 5 || (85 <= t && t <= 90) {
            6
        } else if (6 <= t && t <= 12) || (78 <= t && t <= 84) {
            7
        } else if (13 <= t && t <= 20) || (70 <= t && t <= 77) {
            8
        } else if (21 <= t && t <= 29) || (61 <= t && t <= 69) {
            9
        } else if (30 <= t && t <= 39) || (51 <= t && t <= 60) {
            10
        } else if 40 <= t && t <= 50 {
            11
        } else {
            0
        }
    }

    fn new_tile(source: TileIndex) -> (r: Tile<1>)
        ensures
            (r.orientation.0, r.pawn_start) == hexagonal_tile(source.0 as int),
    {
        let t = source.index();
        let pawn_start = if t == 4 || t == 10 || t == 17 || t == 25 || (30 <= t && t <= 34) {
            Some(Color::White)
        } else if (56 <= t && t <= 60) || t == 65 || t == 73 || t == 80 || t == 86 {
            Some(Color::Black)
        } else {
            None
        };
        Tile { orientation: LimitedInt::new(0), pawn_start }
    }

    fn is_valid_direction(source: TileIndex, d: u8) -> (r: bool)
        ensures
            r == !hexagonal_invalid(source.0 as int).contains(d as int),
    {
        let t = source.index();
        let first = if t <= 5 {
            d == 5 || d == 6 || d == 7 || d == 8 || d == 9
        } else if t == 50 || t == 60 || t == 69 || t == 77 || t == 84 || t == 90 {
            d == 9 || d == 10 || d == 11 || d == 0 || d == 1
        } else if t == 40 || t == 51 || t == 61 || t == 70 || t == 78 || t == 85 {
            d == 1 || d == 2 || d == 3 || d == 4 || d == 5
        } else if 7 <= t && t <= 11 {
            d == 7
        } else if t == 49 || t == 59 || t == 68 || t == 76 || t == 83 {
            d == 11
        } else if t == 41 || t == 52 || t == 62 || t == 71 || t == 79 {
            d == 3
        } else {
            false
        };
        let second = if t == 5 || t == 12 || t == 20 || t == 29 || t == 39 || t == 50 {
            d == 7 || d == 8 || d == 9 || d == 10 || d == 11
        } else if 85 <= t && t <= 90 {
            d == 11 || d == 0 || d == 1 || d == 2 || d == 3
        } else if t == 0 || t == 6 || t == 13 || t == 21 || t == 30 || t == 40 {
            d == 3 || d == 4 || d == 5 || d == 6 || d == 7
        } else if 79 <= t && t <= 83 {
            d == 1
        } else if t == 7 || t == 14 || t == 22 || t == 31 || t == 41 {
            d == 5
        } else if t == 11 || t == 19 || t == 28 || t == 38 || t == 49 {
            d == 9
        } else {
            false
        };
        !(first || second)
    }

    /// The directions in which a step from `source_tile` stays on the board,
    /// in increasing order.
    fn get_valid_directions(source_tile: TileIndex) -> (r: Vec<LimitedInt<12>>)
        ensures
            r@.len() == valid_directions(hexagonal_validity(), source_tile.0 as int, 12).len(),
            forall|i: int|
                0 <= i < r@.len() ==> (#[trigger] r@[i]).0 == valid_directions(hexagonal_validity(), source_tile.0 as int, 12)[i],
    {
        let all = LimitedInt::<12>::all_values();
        let mut result: Vec<LimitedInt<12>> = Vec::new();
        let mut d: usize = 0;
        while d < all.len()
            invariant
                d <= all@.len(),
                all@.len() == 12,
                forall|i: int| 0 <= i < 12 ==> (#[trigger] all@[i]).0 == i,
                result@.len() == valid_directions(hexagonal_validity(), source_tile.0 as int, d as int).len(),
                forall|i: int|
                    0 <= i < result@.len() ==> (#[trigger] result@[i]).0 == valid_directions(
                        hexagonal_validity(),
                        source_tile.0 as int,
                        d as int,
                    )[i],
            decreases all@.len() - d,
        {
            let direction = all[d];
            if Self::is_valid_direction(source_tile, direction.0) {
                result.push(direction);
            }
            d = d + 1;
        }
        result
    }

    /// The change of tile index of a step from `source` in `direction`.
    fn get_tile_index_shift(source: TileIndex, direction: &LimitedInt<12>) -> (r: i32)
        requires
            source.0 < 91,
            direction.0 < 12,
        ensures
            r == hexagonal_shift(source.0 as int, direction.0 as int),
    {
        let row = Self::row_length(source);
        let t = source.index();
        match direction.0 {
            0 => if t < 40 { row + 1 } else { row },
            1 => if t < 30 { 2 * row + 2 } else if t >= 40 { 2 * row - 2 } else { 2 * row + 1 },
            2 => if t < 40 { row } else { row - 1 },
            3 => if t < 40 { row - 1 } else { row - 2 },
            4 => -1,
            5 => if t < 51 { -row - 1 } else { -row - 2 },
            6 => if t < 51 { -row } else { -row - 1 },
            7 => if t >= 61 { -2 * row - 2 } else if t < 51 { -2 * row + 2 } else { -2 * row - 1 },
            8 => if t < 51 { -row + 1 } else { -row },
            9 => if t < 51 { -row + 2 } else { -row + 1 },
            10 => 1,
            _ => if t < 40 { row + 2 } else { row + 1 },
        }
    }
}

} // verus!
