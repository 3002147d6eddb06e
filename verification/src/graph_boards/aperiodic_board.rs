use vstd::prelude::*;

use crate::graph_boards::graph_board::{valid_directions, GraphBoard, Tile, TileIndex};
use crate::limited_int::LimitedInt;
use crate::piece_set::Color;

verus! {

/// A direction of the aperiodic board: 0 is forward for white, and they
/// turn counter-clockwise.
pub type AperiodicDirection = LimitedInt<10>;

/// An orientation of a tile of the aperiodic board.
pub type AperiodicOrientation = LimitedInt<6>;

/// The orientations of the 122 tiles of the aperiodic board.
pub open spec fn aperiodic_orientations() -> Seq<u8> {
    seq![0u8, 4, 5, 0, 5, 0, 5, 0, 5, 1, 0, 5, 0, 2, 0, 2, 0, 4, 1, 0, 2, 0, 4, 1, 1, 1, 3, 1, 1, 1, 3, 2, 3, 0, 5, 2, 3, 1, 3, 0, 5, 2, 1, 2, 1, 0, 4, 0, 0, 2, 1, 0, 2, 0, 4, 5, 1, 4, 5, 4, 2, 0, 4, 5, 1, 1, 1, 3, 3, 3, 1, 1, 3, 3, 0, 5, 4, 5, 3, 2, 3, 2, 1, 5, 3, 2, 3, 2, 1, 0, 5, 2, 1, 4, 0, 4, 2, 1, 4, 1, 0, 2, 3, 2, 1, 0, 3, 5, 1, 5, 3, 2, 3, 0, 5, 1, 4, 5, 2, 1, 4, 2]
}

/// The tiles from which direction `d` leads off the aperiodic board.
pub open spec fn aperiodic_edge_tiles(d: int) -> Seq<usize> {
    if d == 0 {
        seq![9usize, 17, 18, 27, 36, 46, 47, 48, 69, 71, 83, 95, 107, 114, 117]
    } else if d == 1 {
        seq![0usize, 8, 9, 10, 18, 19, 27, 35, 36, 47, 48, 59, 61, 69, 71, 81, 82, 95, 106, 107, 109, 116, 117]
    } else if d == 2 {
        seq![0usize, 5, 7, 18, 19, 59, 61, 82, 109, 116]
    } else if d == 3 {
        seq![0usize, 2, 3, 4, 5, 6, 7, 14, 16, 18, 59, 82, 84, 94, 102, 103, 104, 118]
    } else if d == 4 {
        seq![0usize, 2, 4, 6, 7, 37, 38, 59, 84, 94, 96, 104, 115, 118, 119]
    } else if d == 5 {
        seq![1usize, 2, 4, 6, 7, 16, 17, 37, 38, 60, 62, 72, 84, 91, 92, 94, 96, 104, 105, 106, 110, 115, 118, 119, 121]
    } else if d == 6 {
        seq![1usize, 4, 6, 7, 38, 60, 83, 84, 94, 96, 104, 115, 118, 119]
    } else if d == 7 {
        seq![1usize, 7, 17, 27, 38, 46, 48, 49, 58, 60, 71, 83, 84, 94, 96, 97, 100, 104, 107, 113, 114, 115, 119]
    } else if d == 8 {
        seq![9usize, 17, 27, 36, 46, 47, 48, 69, 71, 83, 95, 107, 114, 117]
    } else {
        seq![9usize, 13, 15, 17, 18, 20, 27, 28, 36, 46, 47, 48, 69, 71, 80, 83, 90, 95, 107, 114, 117]
    }
}

/// The directions leading off the aperiodic board from tile `t`.
pub open spec fn aperiodic_invalid(t: int) -> Set<int> {
    Set::new(|d: int| 0 <= d < 10 && aperiodic_edge_tiles(d).contains(t as usize))
}

pub open spec fn aperiodic_validity() -> spec_fn(int, int) -> bool {
    |t: int, d: int| !aperiodic_invalid(t).contains(d)
}

/// The tile of index `t` of the aperiodic board: its orientation and the
/// color whose pawns start on it.
pub open spec fn aperiodic_tile(t: int) -> (u8, Option<Color>) {
    (aperiodic_orientations()[t], if t == 6 || t == 16 || t == 26 || t == 35 || t == 57 || t == 80 || t == 93 || t == 103 || t == 104 {
        Some(Color::White)
    } else if t == 70 || t == 71 || t == 72 || t == 85 || t == 95 || t == 106 || t == 107 || t == 110 || t == 121 {
        Some(Color::Black)
    } else {
        None
    })
}

/// Whether `x` is among the entries of `list`.
fn list_contains(list: &[usize], x: usize) -> (r: bool)
    ensures
        r == list@.contains(x),
{
    let mut i: usize = 0;
    while i < list.len()
        invariant
            i <= list@.len(),
            forall|j: int| 0 <= j < i ==> list@[j] != x,
        decreases list@.len() - i,
    {
        if list[i] == x {
            return true;
        }
        i = i + 1;
    }
    false
}

/// The aperiodic board: 122 tiles of six orientations with ten directions.
pub struct AperiodicBoardGraph(pub GraphBoard<6, 10>);

impl AperiodicBoardGraph {
    /// The tile of index `source`.
    pub fn new_tile(source: usize) -> (r: Tile<6>)
        requires
            source < 122,
        ensures
            (r.orientation.0, r.pawn_start) == aperiodic_tile(source as int),
    {
        let pawn_start = if source == 6 || source == 16 || source == 26 || source == 35 || source == 57 || source == 80
            || source == 93 || source == 103 || source == 104 {
            Some(Color::White)
        } else if source == 70 || source == 71 || source == 72 || source == 85 || source == 95 || source == 106
            || source == 107 || source == 110 || source == 121 {
            Some(Color::Black)
        } else {
            None
        };
        let orientation_list: [u8; 122] = [0, 4, 5, 0, 5, 0, 5, 0, 5, 1, 0, 5, 0, 2, 0, 2, 0, 4, 1, 0, 2, 0, 4, 1, 1, 1, 3, 1, 1, 1, 3, 2, 3, 0, 5, 2, 3, 1, 3, 0, 5, 2, 1, 2, 1, 0, 4, 0, 0, 2, 1, 0, 2, 0, 4, 5, 1, 4, 5, 4, 2, 0, 4, 5, 1, 1, 1, 3, 3, 3, 1, 1, 3, 3, 0, 5, 4, 5, 3, 2, 3, 2, 1, 5, 3, 2, 3, 2, 1, 0, 5, 2, 1, 4, 0, 4, 2, 1, 4, 1, 0, 2, 3, 2, 1, 0, 3, 5, 1, 5, 3, 2, 3, 0, 5, 1, 4, 5, 2, 1, 4, 2];
        proof {
            assert(orientation_list@ =~= aperiodic_orientations());
        }
        let orientation = LimitedInt(orientation_list[source]);
        Tile { orientation, pawn_start }
    }

    /// Whether a step from `source` in direction `d` stays on the board.
    fn is_valid_direction(source: TileIndex, d: u8) -> (r: bool)
        requires
            d < 10,
        ensures
            r == !aperiodic_invalid(source.0 as int).contains(d as int),
    {
        let t = source.index();
        let list: &[usize] = match d {
            0 => &[9, 17, 18, 27, 36, 46, 47, 48, 69, 71, 83, 95, 107, 114, 117],
            1 => &[0, 8, 9, 10, 18, 19, 27, 35, 36, 47, 48, 59, 61, 69, 71, 81, 82, 95, 106, 107, 109, 116, 117],
            2 => &[0, 5, 7, 18, 19, 59, 61, 82, 109, 116],
            3 => &[0, 2, 3, 4, 5, 6, 7, 14, 16, 18, 59, 82, 84, 94, 102, 103, 104, 118],
            4 => &[0, 2, 4, 6, 7, 37, 38, 59, 84, 94, 96, 104, 115, 118, 119],
            5 => &[1, 2, 4, 6, 7, 16, 17, 37, 38, 60, 62, 72, 84, 91, 92, 94, 96, 104, 105, 106, 110, 115, 118, 119, 121],
            6 => &[1, 4, 6, 7, 38, 60, 83, 84, 94, 96, 104, 115, 118, 119],
            7 => &[1, 7, 17, 27, 38, 46, 48, 49, 58, 60, 71, 83, 84, 94, 96, 97, 100, 104, 107, 113, 114, 115, 119],
            8 => &[9, 17, 27, 36, 46, 47, 48, 69, 71, 83, 95, 107, 114, 117],
            _ => &[9, 13, 15, 17, 18, 20, 27, 28, 36, 46, 47, 48, 69, 71, 80, 83, 90, 95, 107, 114, 117],
        };
        proof {
            assert(list@ =~= aperiodic_edge_tiles(d as int));
        }
        !list_contains(list, t)
    }

    /// The directions in which a step from `source_tile` stays on the board,
    /// in increasing order.
    pub fn get_valid_directions(source_tile: TileIndex) -> (r: Vec<LimitedInt<10>>)
        ensures
            r@.len() == valid_directions(aperiodic_validity(), source_tile.0 as int, 10).len(),
            forall|i: int|
                0 <= i < r@.len() ==> (#[trigger] r@[i]).0 == valid_directions(aperiodic_validity(), source_tile.0 as int, 10)[i],
    {
        let all = LimitedInt::<10>::all_values();
        let mut result: Vec<LimitedInt<10>> = Vec::new();
        let mut d: usize = 0;
        while d < all.len()
            invariant
                d <= all@.len(),
                all@.len() == 10,
                forall|i: int| 0 <= i < 10 ==> (#[trigger] all@[i]).0 == i,
                result@.len() == valid_directions(aperiodic_validity(), source_tile.0 as int, d as int).len(),
                forall|i: int|
                    0 <= i < result@.len() ==> (#[trigger] result@[i]).0 == valid_directions(
                        aperiodic_validity(),
                        source_tile.0 as int,
                        d as int,
                    )[i],
            decreases all@.len() - d,
        {
            let direction = all[d];
            if Self::is_valid_direction(source_tile, direction.0) {
                result.push(direction);
            }
            d = d + 1;
        }
        result
    }
}

} // verus!
