use vstd::prelude::*;
use petgraph::graph::Graph;

use crate::graph_boards::tile_graph::{
    graph_add_edge, graph_add_node, graph_edges, graph_new, graph_node_count, graph_node_weight,
    graph_nodes, graph_outgoing, outgoing,
};
use crate::bit_board::BitBoard;
use crate::bits::{has_bit, lemma_has_bit_single, lemma_has_bit_zero, single_bit};
use crate::bit_board::lemma_board_ops;
use crate::limited_int::{rounded_share, LimitedInt};
use crate::bit_board::{board_of, lemma_board_of, lowest_tile, lemma_lowest_tile};
use crate::movement_tables::{is_transpose, rows_within, PawnTables};
use crate::move_generator::{jump_ok, pawn_ok, MoveTables};
use crate::movement_tables::{
    direction_selected, subset_of_board, DirectionalSlideTable, JumpTable, SlideTables,
};
use crate::bit_board::{is_subset_bits, CarryRippler};
use crate::bits::lemma_has_bit_and;
use crate::bits::lemma_bits_ext;
use std::collections::HashMap;
use crate::piece_set::Color;

verus! {

broadcast use vstd::std_specs::hash::group_hash_axioms;

/// The index of a tile (a node of a board graph).
#[derive(Debug, PartialEq, Eq, Hash, Clone, Copy, Structural)]
pub struct TileIndex(pub usize);

impl TileIndex {
    pub fn new(index: usize) -> (r: Self)
        ensures
            r.0 == index,
    {
        TileIndex(index)
    }

    #[verifier::allow_in_spec]
    pub fn index(&self) -> usize
        returns
            self.0,
    {
        self.0
    }
}

/// A tile of a board: its orientation (which way its pawns face) and the
/// color whose pawns start on it, if any.
#[derive(Debug, Clone, Copy)]
pub struct Tile<const N: u8> {
    pub orientation: LimitedInt<N>,
    pub pawn_start: Option<Color>,
}

/// The tile reached from `t` by the edge of direction `d`: the target of the
/// most recently added such edge, if there is one.
pub open spec fn step(edges: Seq<(usize, usize, u8)>, t: int, d: int) -> Option<int>
    decreases edges.len(),
{
    if edges.len() == 0 {
        None
    } else {
        let e = edges.last();
        if e.0 == t && e.2 == d {
            Some(e.1 as int)
        } else {
            step(edges.drop_last(), t, d)
        }
    }
}

/// The target of the first entry of `s` whose direction is `d`.
pub open spec fn first_with_direction(s: Seq<(usize, u8)>, d: int) -> Option<int>
    decreases s.len(),
{
    if s.len() == 0 {
        None
    } else if s[0].1 == d {
        Some(s[0].0 as int)
    } else {
        first_with_direction(s.drop_first(), d)
    }
}

proof fn lemma_first_outgoing(edges: Seq<(usize, usize, u8)>, t: int, d: int)
    ensures
        first_with_direction(outgoing(edges, t), d) == step(edges, t, d),
    decreases edges.len(),
{
    if edges.len() > 0 {
        lemma_first_outgoing(edges.drop_last(), t, d);
        let e = edges.last();
        let rest = outgoing(edges.drop_last(), t);
        if e.0 == t {
            assert((seq![(e.1, e.2)] + rest).drop_first() =~= rest);
        }
    }
}

proof fn lemma_step_in_board(edges: Seq<(usize, usize, u8)>, t: int, d: int, n: int)
    requires
        forall|i: int| 0 <= i < edges.len() ==> (#[trigger] edges[i]).1 < n,
    ensures
        step(edges, t, d) matches Some(x) ==> 0 <= x < n,
    decreases edges.len(),
{
    if edges.len() > 0 {
        let e = edges.last();
        assert(edges[edges.len() - 1].1 < n);
        lemma_step_in_board(edges.drop_last(), t, d, n);
    }
}

/// The tile `k` steps from `s` in direction `d`, if the ray gets that far.
pub open spec fn ray_tile(edges: Seq<(usize, usize, u8)>, s: int, d: int, k: nat) -> Option<int>
    decreases k,
{
    if k == 0 {
        Some(s)
    } else {
        match ray_tile(edges, s, d, (k - 1) as nat) {
            Some(t) => step(edges, t, d),
            None => None,
        }
    }
}

/// Whether a slide stops at step `k`: the ray ends there, or the step count
/// reaches `limit` (zero meaning no limit), or the tile there is obstructed
/// (the obstructing tile itself is still reached).
pub open spec fn ray_stops(
    edges: Seq<(usize, usize, u8)>,
    s: int,
    d: int,
    limit: int,
    obstructions: Set<int>,
    k: nat,
) -> bool {
    match ray_tile(edges, s, d, k) {
        Some(t) => k == limit || obstructions.contains(t),
        None => true,
    }
}

/// The tiles a slide from `s` in direction `d` reaches: every tile of the
/// ray up to and including the first step at which it stops.
pub open spec fn slide_reach(
    edges: Seq<(usize, usize, u8)>,
    s: int,
    d: int,
    limit: int,
    obstructions: Set<int>,
) -> Set<int> {
    Set::new(
        |t: int|
            exists|k: nat|
                1 <= k && #[trigger] ray_tile(edges, s, d, k) == Some(t) && forall|j: nat|
                    1 <= j < k ==> !#[trigger] ray_stops(edges, s, d, limit, obstructions, j),
    )
}

/// The slide stops within the first `u32::MAX` steps (otherwise it would run
/// forever round a cycle of the board, or overflow its step counter).
pub open spec fn slide_ends(
    edges: Seq<(usize, usize, u8)>,
    s: int,
    d: int,
    limit: int,
    obstructions: Set<int>,
) -> bool {
    exists|k: nat| 1 <= k <= u32::MAX && #[trigger] ray_stops(edges, s, d, limit, obstructions, k)
}

proof fn lemma_slide_reach_upto(
    edges: Seq<(usize, usize, u8)>,
    s: int,
    d: int,
    limit: int,
    obstructions: Set<int>,
    m: nat,
)
    requires
        m >= 1,
        ray_stops(edges, s, d, limit, obstructions, m),
        forall|j: nat| 1 <= j < m ==> !#[trigger] ray_stops(edges, s, d, limit, obstructions, j),
    ensures
        slide_reach(edges, s, d, limit, obstructions) == Set::new(
            |t: int| exists|k: nat| 1 <= k <= m && #[trigger] ray_tile(edges, s, d, k) == Some(t),
        ),
{
    let r = slide_reach(edges, s, d, limit, obstructions);
    let u = Set::new(|t: int| exists|k: nat| 1 <= k <= m && #[trigger] ray_tile(edges, s, d, k) == Some(t));
    assert forall|t: int| r.contains(t) implies u.contains(t) by {
        let k = choose|k: nat|
            1 <= k && #[trigger] ray_tile(edges, s, d, k) == Some(t) && forall|j: nat|
                1 <= j < k ==> !#[trigger] ray_stops(edges, s, d, limit, obstructions, j);
        if k > m {
            assert(!ray_stops(edges, s, d, limit, obstructions, m));
        }
    }
    assert forall|t: int| u.contains(t) implies r.contains(t) by {
        let k = choose|k: nat| 1 <= k <= m && #[trigger] ray_tile(edges, s, d, k) == Some(t);
        assert forall|j: nat| 1 <= j < k implies !#[trigger] ray_stops(edges, s, d, limit, obstructions, j) by {}
    }
    assert(r =~= u);
}

proof fn lemma_single_and(n: int, b: u128)
    requires
        0 <= n < 128,
    ensures
        ((single_bit(n) & b) != 0) == has_bit(b, n),
        BitBoard(single_bit(n))@ == set![n],
{
    let k = n as u128;
    assert(((1u128 << k) & b != 0) == ((b >> k) & 1u128 == 1u128)) by (bit_vector)
        requires
            k < 128,
    ;
    assert forall|i: int| #![auto] BitBoard(single_bit(n))@.contains(i) == set![n].contains(i) by {
        lemma_has_bit_single(n, i);
    }
    assert(BitBoard(single_bit(n))@ =~= set![n]);
}

/// The board `b` with tile `t` added.
fn with_tile(b: BitBoard, t: TileIndex) -> (r: BitBoard)
    requires
        t.0 < 128,
    ensures
        r@ == b@.insert(t.0 as int),
{
    proof {
        lemma_single_and(t.0 as int, 0);
        lemma_board_ops(b, BitBoard(single_bit(t.0 as int)));
        assert(b@.union(set![t.0 as int]) =~= b@.insert(t.0 as int));
    }
    BitBoard(b.0 | (1u128 << (t.0 as u128)))
}

proof fn lemma_empty_board()
    ensures
        BitBoard(0)@ == Set::<int>::empty(),
{
    assert forall|i: int| !BitBoard(0)@.contains(i) by {
        lemma_has_bit_zero(i);
    }
    assert(BitBoard(0)@ =~= Set::<int>::empty());
}

/// The direction next to `d` among `e` directions: the previous one for
/// `k == 0`, the following one otherwise.
pub open spec fn adjacent_direction(d: int, k: int, e: int) -> int {
    if k == 0 {
        (d + e - 1) % e
    } else {
        (d + 1) % e
    }
}

/// The tile reached by one step in direction `d` and then one step in the
/// adjacent direction `adjacent_direction(d, k, e)`.
pub open spec fn knight_path(edges: Seq<(usize, usize, u8)>, s: int, e: int, d: int, k: int) -> Option<int> {
    match step(edges, s, d) {
        Some(n) => step(edges, n, adjacent_direction(d, k, e)),
        None => None,
    }
}

/// The tiles a knight reaches from `s`: one step in any direction, then one
/// step in a direction adjacent to it.
pub open spec fn knight_reach(edges: Seq<(usize, usize, u8)>, s: int, e: int) -> Set<int> {
    Set::new(
        |t: int|
            exists|d: int, k: int|
                0 <= d < e && 0 <= k < 2 && #[trigger] knight_path(edges, s, e, d, k) == Some(t),
    )
}

/// The tiles reached by sliding from `s` in each of the directions that
/// `orthogonals` and `diagonals` select.
pub open spec fn cast_reach(
    edges: Seq<(usize, usize, u8)>,
    s: int,
    e: int,
    limit: int,
    obstructions: Set<int>,
    orthogonals: bool,
    diagonals: bool,
) -> Set<int> {
    Set::new(
        |t: int|
            exists|d: int|
                0 <= d < e && direction_selected(d, orthogonals, diagonals)
                    && #[trigger] slide_reach(edges, s, d, limit, obstructions).contains(t),
    )
}

/// A slide with a limit always stops, at the latest when the limit is reached.
proof fn lemma_limited_slide_ends(
    edges: Seq<(usize, usize, u8)>,
    s: int,
    d: int,
    limit: int,
    obstructions: Set<int>,
)
    requires
        1 <= limit <= u32::MAX,
    ensures
        slide_ends(edges, s, d, limit, obstructions),
{
    assert(ray_stops(edges, s, d, limit, obstructions, limit as nat));
}

/// A ray that ends when nothing is in the way also ends with obstructions.
proof fn lemma_slide_ends_obstructed(
    edges: Seq<(usize, usize, u8)>,
    s: int,
    d: int,
    obstructions: Set<int>,
)
    requires
        slide_ends(edges, s, d, 0, Set::empty()),
    ensures
        slide_ends(edges, s, d, 0, obstructions),
{
    let k = choose|k: nat| 1 <= k <= u32::MAX && #[trigger] ray_stops(edges, s, d, 0, Set::empty(), k);
    assert(ray_stops(edges, s, d, 0, obstructions, k));
}

/// Subsets of a board as bit patterns and as sets of tiles agree.
proof fn lemma_subset_bits(x: u128, m: BitBoard)
    ensures
        is_subset_bits(x, m.0) == subset_of_board(x, m),
        is_subset_bits(x, m.0) ==> x <= m.0,
{
    let mm = m.0;
    assert(x & mm == x ==> x <= mm) by (bit_vector);
    if is_subset_bits(x, m.0) {
        assert forall|i: int| BitBoard(x)@.contains(i) implies m@.contains(i) by {
            lemma_has_bit_and(x, m.0, i);
        }
    }
    if subset_of_board(x, m) {
        assert forall|i: int| 0 <= i < 128 implies has_bit(x & m.0, i) == has_bit(x, i) by {
            lemma_has_bit_and(x, m.0, i);
            if has_bit(x, i) {
                assert(BitBoard(x)@.contains(i));
            }
        }
        lemma_bits_ext(x & m.0, x);
    }
}

/// Every tile a slide reaches is a tile of the board.
proof fn lemma_slide_reach_in_board(
    edges: Seq<(usize, usize, u8)>,
    s: int,
    d: int,
    limit: int,
    obstructions: Set<int>,
    n: int,
)
    requires
        forall|i: int| 0 <= i < edges.len() ==> (#[trigger] edges[i]).1 < n,
    ensures
        forall|t: int| #[trigger] slide_reach(edges, s, d, limit, obstructions).contains(t) ==> 0 <= t < n,
{
    assert forall|t: int| #[trigger] slide_reach(edges, s, d, limit, obstructions).contains(t) implies 0 <= t < n by {
        let k = choose|k: nat|
            1 <= k && #[trigger] ray_tile(edges, s, d, k) == Some(t) && forall|j: nat|
                1 <= j < k ==> !#[trigger] ray_stops(edges, s, d, limit, obstructions, j);
        let prev = ray_tile(edges, s, d, (k - 1) as nat);
        lemma_step_in_board(edges, prev.unwrap(), d, n);
    }
}

/// The direction a pawn of `color` moves in from a tile of the given
/// orientation: the orientation mapped onto the directions, turned half
/// round for black.
pub open spec fn pawn_direction(orientation: int, color: Color, n: int, e: int) -> int {
    (rounded_share(e, n, orientation) % e + (if color == Color::White {
        0
    } else {
        e / 2
    })) % e
}

proof fn lemma_rows_equal(a: Seq<BitBoard>, b: Seq<BitBoard>)
    requires
        a.len() == b.len(),
        forall|i: int| 0 <= i < a.len() ==> (#[trigger] a[i])@ == b[i]@,
    ensures
        a == b,
{
    assert forall|i: int| 0 <= i < a.len() implies a[i] == b[i] by {
        crate::bit_board::lemma_view_ext(a[i], b[i]);
    }
    assert(a =~= b);
}

/// The directions below `d` that `valid` allows at tile `t`, in increasing
/// order.
pub open spec fn valid_directions(valid: spec_fn(int, int) -> bool, t: int, d: int) -> Seq<int>
    decreases d,
{
    if d <= 0 {
        Seq::empty()
    } else {
        valid_directions(valid, t, d - 1) + (if valid(t, d - 1) {
            seq![d - 1]
        } else {
            Seq::empty()
        })
    }
}

pub proof fn lemma_valid_directions(valid: spec_fn(int, int) -> bool, t: int, d: int)
    requires
        d >= 0,
    ensures
        valid_directions(valid, t, d).len() <= d,
        forall|i: int|
            0 <= i < valid_directions(valid, t, d).len() ==> 0 <= #[trigger] valid_directions(valid, t, d)[i] < d
                && valid(t, valid_directions(valid, t, d)[i]),
    decreases d,
{
    if d > 0 {
        lemma_valid_directions(valid, t, d - 1);
    }
}

/// The edges of tile `t`: one for each valid direction below `e`, in
/// increasing order, to the tile `shift(t, d)` further on.
pub open spec fn tile_edges(
    valid: spec_fn(int, int) -> bool,
    shift: spec_fn(int, int) -> int,
    t: int,
    e: int,
) -> Seq<(usize, usize, u8)> {
    valid_directions(valid, t, e).map_values(|d: int| (t as usize, (t + shift(t, d)) as usize, d as u8))
}

/// The edges of the tiles below `t`, tile by tile.
pub open spec fn board_edges(
    valid: spec_fn(int, int) -> bool,
    shift: spec_fn(int, int) -> int,
    t: int,
    e: int,
) -> Seq<(usize, usize, u8)>
    decreases t,
{
    if t <= 0 {
        Seq::empty()
    } else {
        board_edges(valid, shift, t - 1, e) + tile_edges(valid, shift, t - 1, e)
    }
}

/// A board: a directed graph whose nodes are tiles and whose edges lead to
/// the neighboring tile in each of `E` directions; tile orientations take
/// `N` values.
pub struct GraphBoard<const N: u8, const E: u8>(pub Graph<(u8, Option<Color>), u8>);

impl<const N: u8, const E: u8> GraphBoard<N, E> {
    /// The tiles, by index, as orientation and pawn start color.
    pub open spec fn nodes(&self) -> Seq<(u8, Option<Color>)> {
        graph_nodes(self.0)
    }

    /// The edges, in the order they were added, as source, target, direction.
    pub open spec fn edges(&self) -> Seq<(usize, usize, u8)> {
        graph_edges(self.0)
    }

    /// At most 128 tiles (one bit of a board each); every edge joins two
    /// tiles and has a direction below `E`; every orientation is below `N`.
    /// At most 128 directions: turning a direction by `E - 1` (to its
    /// neighbour the other way round) adds `E - 1` to it in a `u8`, which
    /// stays below 256 exactly when `E <= 128`.
    pub open spec fn wf(&self) -> bool {
        &&& 0 < N
        &&& 0 < E <= 128
        &&& self.nodes().len() <= 128
        &&& forall|i: int|
            0 <= i < self.edges().len() ==> {
                &&& (#[trigger] self.edges()[i]).0 < self.nodes().len()
                &&& self.edges()[i].1 < self.nodes().len()
                &&& self.edges()[i].2 < E
            }
        &&& forall|i: int| 0 <= i < self.nodes().len() ==> (#[trigger] self.nodes()[i]).0 < N
    }

    /// A board without tiles.
    pub fn new() -> (r: Self)
        ensures
            r.nodes() == Seq::<(u8, Option<Color>)>::empty(),
            r.edges() == Seq::<(usize, usize, u8)>::empty(),
    {
        GraphBoard(graph_new())
    }

    /// Adds a tile and returns its index.
    pub fn add_node(&mut self, tile: Tile<N>) -> (r: TileIndex)
        requires
            old(self).nodes().len() < u32::MAX,
        ensures
            r.0 == old(self).nodes().len(),
            final(self).nodes() == old(self).nodes().push((tile.orientation.0, tile.pawn_start)),
            final(self).edges() == old(self).edges(),
    {
        TileIndex(graph_add_node(&mut self.0, (tile.orientation.0, tile.pawn_start)))
    }

    /// Adds an edge from `source` to `target` in `direction`.
    pub fn add_edge(&mut self, source: TileIndex, target: TileIndex, direction: LimitedInt<E>)
        requires
            source.0 < old(self).nodes().len(),
            target.0 < old(self).nodes().len(),
            old(self).edges().len() < u32::MAX,
        ensures
            final(self).nodes() == old(self).nodes(),
            final(self).edges() == old(self).edges().push((source.0, target.0, direction.0)),
    {
        graph_add_edge(&mut self.0, source.0, target.0, direction.0)
    }

    /// The number of tiles.
    pub fn node_count(&self) -> (r: usize)
        ensures
            r == self.nodes().len(),
    {
        graph_node_count(&self.0)
    }

    /// The tile at `index`.
    pub fn tile(&self, index: TileIndex) -> (r: Tile<N>)
        requires
            index.0 < self.nodes().len(),
        ensures
            r.orientation.0 == self.nodes()[index.0 as int].0,
            r.pawn_start == self.nodes()[index.0 as int].1,
    {
        let (orientation, pawn_start) = graph_node_weight(&self.0, index.0);
        Tile { orientation: LimitedInt(orientation), pawn_start }
    }

    /// The tile one step from `source_tile` in `direction`, if the board has
    /// an edge that way.
    pub fn get_next_tile_in_direction(&self, source_tile: TileIndex, direction: &LimitedInt<E>) -> (r: Option<TileIndex>)
        requires
            source_tile.0 < self.nodes().len(),
        ensures
            r matches Some(t) ==> step(self.edges(), source_tile.0 as int, direction.0 as int) == Some(t.0 as int),
            r is None ==> step(self.edges(), source_tile.0 as int, direction.0 as int) is None,
    {
        let out = graph_outgoing(&self.0, source_tile.0);
        proof {
            lemma_first_outgoing(self.edges(), source_tile.0 as int, direction.0 as int);
            assert(out@.subrange(0, out@.len() as int) =~= out@);
        }
        let mut i: usize = 0;
        while i < out.len()
            invariant
                i <= out@.len(),
                first_with_direction(out@.subrange(i as int, out@.len() as int), direction.0 as int)
                    == step(self.edges(), source_tile.0 as int, direction.0 as int),
            decreases out@.len() - i,
        {
            let (target, d) = out[i];
            assert(out@.subrange(i as int, out@.len() as int).drop_first() =~= out@.subrange(
                i as int + 1,
                out@.len() as int,
            ));
            if d == direction.0 {
                return Some(TileIndex(target));
            }
            i = i + 1;
        }
        None
    }
}


impl<const N: u8, const E: u8> GraphBoard<N, E> {
    /// The tiles reached by sliding from `source_tile` in `direction`: the
    /// ray's tiles up to the first that is obstructed (included, as a piece
    /// there may be captured), at most `limit` of them when `limit` is not
    /// zero.
    pub fn slides_from_in_direction(
        &self,
        source_tile: TileIndex,
        direction: &LimitedInt<E>,
        limit: u32,
        obstructions: BitBoard,
    ) -> (r: BitBoard)
        requires
            self.wf(),
            source_tile.0 < self.nodes().len(),
            slide_ends(self.edges(), source_tile.0 as int, direction.0 as int, limit as int, obstructions@),
        ensures
            r@ == slide_reach(self.edges(), source_tile.0 as int, direction.0 as int, limit as int, obstructions@),
    {
        let ghost edges = self.edges();
        let ghost s = source_tile.0 as int;
        let ghost d = direction.0 as int;
        let ghost bound = choose|k: nat| 1 <= k <= u32::MAX && #[trigger] ray_stops(edges, s, d, limit as int, obstructions@, k);
        let mut result = BitBoard(0);
        let mut current_tile = source_tile;
        let mut distance_traveled: u32 = 0;
        proof {
            assert forall|i: int| !result@.contains(i) by {
                lemma_has_bit_zero(i);
            }
            assert(result@ =~= Set::new(|t: int| exists|k: nat| 1 <= k <= 0 && #[trigger] ray_tile(edges, s, d, k) == Some(t)));
        }
        loop
            invariant_except_break
                current_tile.0 < self.nodes().len(),
                ray_tile(edges, s, d, distance_traveled as nat) == Some(current_tile.0 as int),
                forall|j: nat| 1 <= j <= distance_traveled ==> !#[trigger] ray_stops(edges, s, d, limit as int, obstructions@, j),
            invariant
                self.wf(),
                edges == self.edges(),
                s == source_tile.0,
                d == direction.0,
                1 <= bound <= u32::MAX,
                ray_stops(edges, s, d, limit as int, obstructions@, bound),
                result@ == Set::new(|t: int| exists|k: nat| 1 <= k <= distance_traveled && #[trigger] ray_tile(edges, s, d, k) == Some(t)),
            ensures
                result@ == slide_reach(edges, s, d, limit as int, obstructions@),
            decreases bound - distance_traveled,
        {
            match self.get_next_tile_in_direction(current_tile, direction) {
                None => {
                    proof {
                        let m = (distance_traveled + 1) as nat;
                        assert(ray_tile(edges, s, d, m) is None);
                        lemma_slide_reach_upto(edges, s, d, limit as int, obstructions@, m);
                        assert(slide_reach(edges, s, d, limit as int, obstructions@) =~= result@);
                    }
                    break;
                },
                Some(n) => {
                    proof {
                        lemma_step_in_board(edges, current_tile.0 as int, d, self.nodes().len() as int);
                        lemma_single_and(n.0 as int, obstructions.0);
                        lemma_board_ops(result, BitBoard(single_bit(n.0 as int)));
                    }
                    let bit: u128 = 1u128 << (n.0 as u128);
                    let hit = (bit & obstructions.0) != 0;
                    let ghost old_result = result;
                    result = BitBoard(result.0 | bit);
                    let ghost m = (distance_traveled + 1) as nat;
                    assert(ray_tile(edges, s, d, m) == Some(n.0 as int));
                    assert(distance_traveled < bound);
                    distance_traveled = distance_traveled + 1;
                    proof {
                        assert(result@ =~= Set::new(|t: int| exists|k: nat| 1 <= k <= distance_traveled && #[trigger] ray_tile(edges, s, d, k) == Some(t))) by {
                            assert forall|t: int| result@.contains(t) implies exists|k: nat| 1 <= k <= distance_traveled && #[trigger] ray_tile(edges, s, d, k) == Some(t) by {
                                if t == n.0 {
                                    assert(ray_tile(edges, s, d, m) == Some(t));
                                } else {
                                    assert(old_result@.contains(t));
                                }
                            }
                        }
                    }
                    if distance_traveled == limit || hit {
                        proof {
                            assert(has_bit(obstructions.0, n.0 as int) == obstructions@.contains(n.0 as int));
                            lemma_slide_reach_upto(edges, s, d, limit as int, obstructions@, m);
                        }
                        break;
                    }
                    current_tile = n;
                },
            }
        }
        result
    }
}


impl<const N: u8, const E: u8> GraphBoard<N, E> {
    /// The tiles a knight reaches from `source_tile`: a step in any
    /// direction followed by a step in either adjacent direction.
    pub fn knight_jumps_from(&self, source_tile: TileIndex) -> (r: BitBoard)
        requires
            self.wf(),
            source_tile.0 < self.nodes().len(),
        ensures
            r@ == knight_reach(self.edges(), source_tile.0 as int, E as int),
    {
        let ghost edges = self.edges();
        let ghost s = source_tile.0 as int;
        let ghost e = E as int;
        let directions = LimitedInt::<E>::all_values();
        let mut result = BitBoard(0);
        proof {
            lemma_empty_board();
        }
        let mut i: usize = 0;
        while i < directions.len()
            invariant
                self.wf(),
                edges == self.edges(),
                s == source_tile.0,
                e == E,
                s < self.nodes().len(),
                i <= directions@.len(),
                directions@.len() == E,
                forall|j: int| 0 <= j < E ==> (#[trigger] directions@[j]).0 == j,
                result@ == Set::new(
                    |t: int|
                        exists|d: int, k: int|
                            0 <= d < i && 0 <= k < 2 && #[trigger] knight_path(edges, s, e, d, k) == Some(t),
                ),
            decreases directions@.len() - i,
        {
            let direction = directions[i];
            let ghost old_result = result;
            let ghost d = i as int;
            if let Some(next_tile) = self.get_next_tile_in_direction(source_tile, &direction) {
                proof {
                    lemma_step_in_board(edges, s, d, self.nodes().len() as int);
                }
                let adjacent = direction.adjacent_values();
                if let Some(t0) = self.get_next_tile_in_direction(next_tile, &adjacent[0]) {
                    proof {
                        lemma_step_in_board(edges, next_tile.0 as int, adjacent[0].0 as int, self.nodes().len() as int);
                    }
                    result = with_tile(result, t0);
                }
                if let Some(t1) = self.get_next_tile_in_direction(next_tile, &adjacent[1]) {
                    proof {
                        lemma_step_in_board(edges, next_tile.0 as int, adjacent[1].0 as int, self.nodes().len() as int);
                    }
                    result = with_tile(result, t1);
                }
                proof {
                    assert(knight_path(edges, s, e, d, 0) == step(edges, next_tile.0 as int, adjacent[0].0 as int));
                    assert(knight_path(edges, s, e, d, 1) == step(edges, next_tile.0 as int, adjacent[1].0 as int));
                }
            } else {
                proof {
                    assert(knight_path(edges, s, e, d, 0) is None);
                    assert(knight_path(edges, s, e, d, 1) is None);
                }
            }
            proof {
                let target = Set::new(
                    |t: int|
                        exists|dd: int, k: int|
                            0 <= dd < i + 1 && 0 <= k < 2 && #[trigger] knight_path(edges, s, e, dd, k) == Some(t),
                );
                assert forall|t: int| target.contains(t) implies result@.contains(t) by {
                    let (dd, k) = choose|dd: int, k: int|
                        0 <= dd < i + 1 && 0 <= k < 2 && #[trigger] knight_path(edges, s, e, dd, k) == Some(t);
                    if dd < i {
                        assert(old_result@.contains(t));
                    }
                }
                assert forall|t: int| result@.contains(t) implies target.contains(t) by {
                    if !old_result@.contains(t) {
                        if knight_path(edges, s, e, d, 0) == Some(t) {
                            assert(knight_path(edges, s, e, d, 0) == Some(t));
                        } else {
                            assert(knight_path(edges, s, e, d, 1) == Some(t));
                        }
                    }
                }
                assert(result@ =~= target);
            }
            i = i + 1;
        }
        proof {
            assert(result@ =~= knight_reach(edges, s, e));
        }
        result
    }

    /// The tiles reached by sliding from `source_tile` in the directions
    /// selected by `orthogonals` and `diagonals` (see `direction_selected`),
    /// each slide as `slides_from_in_direction` makes it.
    pub fn cast_slides_from(
        &self,
        source_tile: TileIndex,
        obstructions: BitBoard,
        limit: u32,
        diagonals: bool,
        orthogonals: bool,
    ) -> (r: BitBoard)
        requires
            self.wf(),
            source_tile.0 < self.nodes().len(),
            forall|d: int|
                0 <= d < E && direction_selected(d, orthogonals, diagonals) ==> #[trigger] slide_ends(
                    self.edges(),
                    source_tile.0 as int,
                    d,
                    limit as int,
                    obstructions@,
                ),
        ensures
            r@ == cast_reach(self.edges(), source_tile.0 as int, E as int, limit as int, obstructions@, orthogonals, diagonals),
    {
        let ghost edges = self.edges();
        let ghost s = source_tile.0 as int;
        let initial_direction: u8 = if orthogonals {
            0
        } else {
            1
        };
        let direction_step: u8 = if orthogonals && diagonals {
            1
        } else {
            2
        };
        let mut result = BitBoard(0);
        proof {
            lemma_empty_board();
        }
        let mut d: u8 = initial_direction;
        while d < E
            invariant
                self.wf(),
                edges == self.edges(),
                s == source_tile.0,
                s < self.nodes().len(),
                d <= E + 1,
                direction_step == (if orthogonals && diagonals { 1u8 } else { 2u8 }),
                d < E ==> direction_selected(d as int, orthogonals, diagonals),
                forall|x: int| 0 <= x < E && direction_selected(x, orthogonals, diagonals) ==> #[trigger] slide_ends(edges, s, x, limit as int, obstructions@),
                forall|x: int| d <= x < d + direction_step && x != d ==> !direction_selected(x, orthogonals, diagonals),
                !orthogonals ==> d >= 1,
                result@ == Set::new(
                    |t: int|
                        exists|x: int|
                            0 <= x < d && x < E && direction_selected(x, orthogonals, diagonals)
                                && #[trigger] slide_reach(edges, s, x, limit as int, obstructions@).contains(t),
                ),
            decreases E + 1 - d,
        {
            let direction = LimitedInt::<E>(d);
            assert(slide_ends(edges, s, d as int, limit as int, obstructions@));
            let slides = self.slides_from_in_direction(source_tile, &direction, limit, obstructions);
            let ghost old_result = result;
            proof {
                lemma_board_ops(result, slides);
            }
            result = BitBoard(result.0 | slides.0);
            let ghost nd = d + direction_step;
            proof {
                let target = Set::new(
                    |t: int|
                        exists|x: int|
                            0 <= x < nd && x < E && direction_selected(x, orthogonals, diagonals)
                                && #[trigger] slide_reach(edges, s, x, limit as int, obstructions@).contains(t),
                );
                assert forall|t: int| target.contains(t) implies result@.contains(t) by {
                    let x = choose|x: int|
                        0 <= x < nd && x < E && direction_selected(x, orthogonals, diagonals)
                            && #[trigger] slide_reach(edges, s, x, limit as int, obstructions@).contains(t);
                    if x < d {
                        assert(old_result@.contains(t));
                    }
                }
                assert forall|t: int| result@.contains(t) implies target.contains(t) by {
                    if !old_result@.contains(t) {
                        assert(slide_reach(edges, s, d as int, limit as int, obstructions@).contains(t));
                    }
                }
                assert(result@ =~= target);
            }
            d = d + direction_step;
        }
        proof {
            assert(result@ =~= cast_reach(edges, s, E as int, limit as int, obstructions@, orthogonals, diagonals)) by {
                assert forall|t: int| #[trigger] cast_reach(edges, s, E as int, limit as int, obstructions@, orthogonals, diagonals).contains(t) implies result@.contains(t) by {
                    let x = choose|x: int|
                        0 <= x < E && direction_selected(x, orthogonals, diagonals)
                            && #[trigger] slide_reach(edges, s, x, limit as int, obstructions@).contains(t);
                    if x >= d {
                        assert(false);
                    }
                }
            }
        }
        result
    }
}


impl<const N: u8, const E: u8> GraphBoard<N, E> {
    /// For each tile, the tiles a knight reaches from it.
    pub fn knight_jumps_table(&self) -> (r: JumpTable)
        requires
            self.wf(),
        ensures
            r.0@.len() == self.nodes().len(),
            forall|i: int| 0 <= i < r.0@.len() ==> (#[trigger] r.0@[i])@ == knight_reach(self.edges(), i, E as int),
    {
        let n = self.node_count();
        let mut result: Vec<BitBoard> = Vec::new();
        let mut i: usize = 0;
        while i < n
            invariant
                self.wf(),
                n == self.nodes().len(),
                i <= n,
                result@.len() == i,
                forall|j: int| 0 <= j < i ==> (#[trigger] result@[j])@ == knight_reach(self.edges(), j, E as int),
            decreases n - i,
        {
            result.push(self.knight_jumps_from(TileIndex(i)));
            i = i + 1;
        }
        JumpTable::new(result)
    }

    /// For each tile, the tiles a king reaches from it: one step in any
    /// direction.
    pub fn king_move_table(&self) -> (r: JumpTable)
        requires
            self.wf(),
        ensures
            r.0@.len() == self.nodes().len(),
            forall|i: int|
                0 <= i < r.0@.len() ==> (#[trigger] r.0@[i])@ == cast_reach(self.edges(), i, E as int, 1, Set::empty(), true, true),
    {
        let n = self.node_count();
        let mut result: Vec<BitBoard> = Vec::new();
        let mut i: usize = 0;
        proof {
            lemma_empty_board();
        }
        while i < n
            invariant
                self.wf(),
                n == self.nodes().len(),
                i <= n,
                result@.len() == i,
                BitBoard(0)@ == Set::<int>::empty(),
                forall|j: int|
                    0 <= j < i ==> (#[trigger] result@[j])@ == cast_reach(self.edges(), j, E as int, 1, Set::empty(), true, true),
            decreases n - i,
        {
            proof {
                assert forall|d: int| 0 <= d < E && direction_selected(d, true, true) implies #[trigger] slide_ends(
                    self.edges(),
                    i as int,
                    d,
                    1,
                    BitBoard(0)@,
                ) by {
                    lemma_limited_slide_ends(self.edges(), i as int, d, 1, BitBoard(0)@);
                }
            }
            result.push(self.cast_slides_from(TileIndex(i), BitBoard(0), 1, true, true));
            i = i + 1;
        }
        JumpTable::new(result)
    }

    /// For each tile, a map from each set of blockers on its unobstructed
    /// ray in `direction` to the tiles a slide that way reaches.
    pub fn slide_table_for_direction(&self, direction: &LimitedInt<E>) -> (r: DirectionalSlideTable)
        requires
            self.wf(),
            forall|s: int| 0 <= s < self.nodes().len() ==> #[trigger] slide_ends(self.edges(), s, direction.0 as int, 0, Set::empty()),
        ensures
            r.0@.len() == self.nodes().len(),
            forall|s: int| 0 <= s < r.0@.len() ==> {
                &&& (#[trigger] r.0@[s])@.contains_key(0u128)
                &&& r.0@[s]@[0u128]@ == slide_reach(self.edges(), s, direction.0 as int, 0, Set::empty())
                &&& forall|x: u128| r.0@[s]@.contains_key(x) <==> subset_of_board(x, r.0@[s]@[0u128])
                &&& forall|x: u128|
                    #[trigger] r.0@[s]@.contains_key(x) ==> r.0@[s]@[x]@ == slide_reach(self.edges(), s, direction.0 as int, 0, BitBoard(x)@)
            },
    {
        let ghost edges = self.edges();
        let ghost d = direction.0 as int;
        let n = self.node_count();
        let mut attack_table: Vec<HashMap<u128, BitBoard>> = Vec::new();
        let mut i: usize = 0;
        proof {
            lemma_empty_board();
        }
        while i < n
            invariant
                self.wf(),
                edges == self.edges(),
                d == direction.0,
                n == self.nodes().len(),
                i <= n,
                attack_table@.len() == i,
                BitBoard(0)@ == Set::<int>::empty(),
                forall|s: int| 0 <= s < self.nodes().len() ==> #[trigger] slide_ends(edges, s, d, 0, Set::empty()),
                forall|s: int| 0 <= s < i ==> {
                    &&& (#[trigger] attack_table@[s])@.contains_key(0u128)
                    &&& attack_table@[s]@[0u128]@ == slide_reach(edges, s, d, 0, Set::empty())
                    &&& forall|x: u128| attack_table@[s]@.contains_key(x) <==> subset_of_board(x, attack_table@[s]@[0u128])
                    &&& forall|x: u128|
                        #[trigger] attack_table@[s]@.contains_key(x) ==> attack_table@[s]@[x]@ == slide_reach(edges, s, d, 0, BitBoard(x)@)
                },
            decreases n - i,
        {
            let source_tile = TileIndex(i);
            assert(slide_ends(edges, i as int, d, 0, Set::empty()));
            let unobstructed_attacks = self.slides_from_in_direction(source_tile, direction, 0, BitBoard(0));
            let mut attack_map: HashMap<u128, BitBoard> = HashMap::new();
            attack_map.insert(0u128, unobstructed_attacks);
            let mut rippler = CarryRippler::new(unobstructed_attacks);
            proof {
                lemma_subset_bits(0u128, unobstructed_attacks);
                assert(0u128 & unobstructed_attacks.0 == 0u128) by (bit_vector);
                assert(attack_map@.dom() =~= Set::new(|x: u128| is_subset_bits(x, unobstructed_attacks.0) && x <= rippler.current()));
            }
            loop
                invariant
                    self.wf(),
                    edges == self.edges(),
                    d == direction.0,
                    i < self.nodes().len(),
                    source_tile.0 == i,
                    rippler.wf(),
                    rippler.mask() == unobstructed_attacks.0,
                    unobstructed_attacks@ == slide_reach(edges, i as int, d, 0, Set::empty()),
                    slide_ends(edges, i as int, d, 0, Set::empty()),
                    BitBoard(0)@ == Set::<int>::empty(),
                    attack_map@.contains_key(0u128),
                    attack_map@[0u128] == unobstructed_attacks,
                    attack_map@.dom() == Set::new(|x: u128| is_subset_bits(x, unobstructed_attacks.0) && x <= rippler.current()),
                    forall|x: u128|
                        #[trigger] attack_map@.contains_key(x) ==> attack_map@[x]@ == slide_reach(edges, i as int, d, 0, BitBoard(x)@),
                ensures
                    rippler.current() == unobstructed_attacks.0,
                decreases unobstructed_attacks.0 - rippler.current(),
            {
                proof {
                    lemma_subset_bits(rippler.current(), unobstructed_attacks);
                }
                let ghost before = rippler.current();
                match rippler.next() {
                    None => {
                        break;
                    },
                    Some(subset) => {
                        proof {
                            lemma_slide_ends_obstructed(edges, i as int, d, subset@);
                        }
                        let slides = self.slides_from_in_direction(source_tile, direction, 0, subset);
                        attack_map.insert(subset.0, slides);
                        proof {
                            lemma_subset_bits(subset.0, unobstructed_attacks);
                            assert(attack_map@.dom() =~= Set::new(|x: u128| is_subset_bits(x, unobstructed_attacks.0) && x <= rippler.current()));
                        }
                    },
                }
            }
            proof {
                assert forall|x: u128| attack_map@.contains_key(x) <==> subset_of_board(x, attack_map@[0u128]) by {
                    lemma_subset_bits(x, unobstructed_attacks);
                }
            }
            attack_table.push(attack_map);
            i = i + 1;
        }
        DirectionalSlideTable::new(attack_table)
    }

    /// One slide table per direction, in direction order.
    pub fn all_slide_tables(&self) -> (r: SlideTables)
        requires
            self.wf(),
            forall|s: int, d: int|
                0 <= s < self.nodes().len() && 0 <= d < E ==> #[trigger] slide_ends(self.edges(), s, d, 0, Set::empty()),
        ensures
            r.0@.len() == E,
            forall|d: int|
                0 <= d < E ==> {
                    &&& (#[trigger] r.0@[d]).0@.len() == self.nodes().len()
                    &&& forall|s: int| 0 <= s < self.nodes().len() ==> {
                        &&& (#[trigger] r.0@[d].0@[s])@.contains_key(0u128)
                        &&& r.0@[d].0@[s]@[0u128]@ == slide_reach(self.edges(), s, d, 0, Set::empty())
                        &&& forall|x: u128| r.0@[d].0@[s]@.contains_key(x) <==> subset_of_board(x, r.0@[d].0@[s]@[0u128])
                        &&& forall|x: u128|
                            #[trigger] r.0@[d].0@[s]@.contains_key(x) ==> r.0@[d].0@[s]@[x]@ == slide_reach(
                                self.edges(),
                                s,
                                d,
                                0,
                                BitBoard(x)@,
                            )
                    }
                },
    {
        let directions = LimitedInt::<E>::all_values();
        let mut output: Vec<DirectionalSlideTable> = Vec::new();
        let mut i: usize = 0;
        while i < directions.len()
            invariant
                self.wf(),
                forall|s: int, d: int|
                    0 <= s < self.nodes().len() && 0 <= d < E ==> #[trigger] slide_ends(self.edges(), s, d, 0, Set::empty()),
                i <= directions@.len(),
                directions@.len() == E,
                forall|j: int| 0 <= j < E ==> (#[trigger] directions@[j]).0 == j,
                output@.len() == i,
                forall|d: int|
                    0 <= d < i ==> {
                        &&& (#[trigger] output@[d]).0@.len() == self.nodes().len()
                        &&& forall|s: int| 0 <= s < self.nodes().len() ==> {
                            &&& (#[trigger] output@[d].0@[s])@.contains_key(0u128)
                            &&& output@[d].0@[s]@[0u128]@ == slide_reach(self.edges(), s, d, 0, Set::empty())
                            &&& forall|x: u128| output@[d].0@[s]@.contains_key(x) <==> subset_of_board(x, output@[d].0@[s]@[0u128])
                            &&& forall|x: u128|
                                #[trigger] output@[d].0@[s]@.contains_key(x) ==> output@[d].0@[s]@[x]@ == slide_reach(
                                    self.edges(),
                                    s,
                                    d,
                                    0,
                                    BitBoard(x)@,
                                )
                        }
                    },
            decreases directions@.len() - i,
        {
            let direction = directions[i];
            proof {
                assert forall|s: int| 0 <= s < self.nodes().len() implies #[trigger] slide_ends(self.edges(), s, direction.0 as int, 0, Set::empty()) by {
                    assert(slide_ends(self.edges(), s, i as int, 0, Set::empty()));
                }
            }
            output.push(self.slide_table_for_direction(&direction));
            i = i + 1;
        }
        SlideTables::new(output)
    }
}


impl<const N: u8, const E: u8> GraphBoard<N, E> {
    /// The direction a pawn of `color` on tile `s` moves in.
    pub open spec fn pawn_dir(&self, s: int, color: Color) -> int {
        pawn_direction(self.nodes()[s].0 as int, color, N as int, E as int)
    }

    /// The tile a pawn of `color` steps to from `s` (none or one tile).
    pub open spec fn pawn_step(&self, s: int, color: Color) -> Set<int> {
        slide_reach(self.edges(), s, self.pawn_dir(s, color), 1, Set::empty())
    }

    /// The tiles a pawn of `color` on `s` attacks: one step in either
    /// direction adjacent to its move direction.
    pub open spec fn pawn_attacks(&self, s: int, color: Color) -> Set<int> {
        Set::new(
            |t: int|
                exists|k: int|
                    0 <= k < 2 && #[trigger] slide_reach(
                        self.edges(),
                        s,
                        adjacent_direction(self.pawn_dir(s, color), k, E as int),
                        1,
                        Set::empty(),
                    ).contains(t),
        )
    }

    /// The tile a pawn of `color` reaches by a double step from `s`: a step
    /// from the tile of its single step, on the tiles where its pawns start.
    pub open spec fn pawn_double_step(&self, s: int, color: Color) -> Set<int> {
        if self.nodes()[s].1 == Some(color) {
            self.pawn_step(lowest_tile(self.pawn_step(s, color)), color)
        } else {
            Set::empty()
        }
    }

    /// For each tile, where a pawn of `color` steps to.
    pub fn pawn_single_table(&self, color: &Color) -> (r: JumpTable)
        requires
            self.wf(),
        ensures
            r.0@.len() == self.nodes().len(),
            forall|i: int| 0 <= i < r.0@.len() ==> (#[trigger] r.0@[i])@ == self.pawn_step(i, *color),
    {
        let forward_or_backward: u8 = match color {
            Color::White => 0,
            _ => E / 2,
        };
        let map = LimitedInt::<N>::map_to_other::<E>();
        let n = self.node_count();
        let mut result: Vec<BitBoard> = Vec::new();
        let mut i: usize = 0;
        while i < n
            invariant
                self.wf(),
                n == self.nodes().len(),
                i <= n,
                forward_or_backward == (if *color == Color::White { 0 } else { E / 2 }),
                map@.len() == N,
                forall|k: int|
                    0 <= k < N ==> (#[trigger] map@[k]).0 == rounded_share(E as int, N as int, k) % (E as int),
                result@.len() == i,
                forall|j: int| 0 <= j < i ==> (#[trigger] result@[j])@ == self.pawn_step(j, *color),
            decreases n - i,
        {
            let tile = self.tile(TileIndex(i));
            assert(self.nodes()[i as int].0 < N);
            let direction = map[tile.orientation.0 as usize].shift_by(forward_or_backward);
            proof {
                lemma_limited_slide_ends(self.edges(), i as int, direction.0 as int, 1, BitBoard(0)@);
                lemma_empty_board();
            }
            result.push(self.slides_from_in_direction(TileIndex(i), &direction, 1, BitBoard(0)));
            i = i + 1;
        }
        JumpTable::new(result)
    }

    /// For each tile, the tiles a pawn of `color` attacks.
    pub fn pawn_attack_table(&self, color: &Color) -> (r: JumpTable)
        requires
            self.wf(),
        ensures
            r.0@.len() == self.nodes().len(),
            forall|i: int| 0 <= i < r.0@.len() ==> (#[trigger] r.0@[i])@ == self.pawn_attacks(i, *color),
    {
        let forward_or_backward: u8 = match color {
            Color::White => 0,
            _ => E / 2,
        };
        let map = LimitedInt::<N>::map_to_other::<E>();
        let n = self.node_count();
        let mut result: Vec<BitBoard> = Vec::new();
        let mut i: usize = 0;
        proof {
            lemma_empty_board();
        }
        while i < n
            invariant
                self.wf(),
                n == self.nodes().len(),
                i <= n,
                BitBoard(0)@ == Set::<int>::empty(),
                forward_or_backward == (if *color == Color::White { 0 } else { E / 2 }),
                map@.len() == N,
                forall|k: int|
                    0 <= k < N ==> (#[trigger] map@[k]).0 == rounded_share(E as int, N as int, k) % (E as int),
                result@.len() == i,
                forall|j: int| 0 <= j < i ==> (#[trigger] result@[j])@ == self.pawn_attacks(j, *color),
            decreases n - i,
        {
            let tile = self.tile(TileIndex(i));
            assert(self.nodes()[i as int].0 < N);
            let move_direction = map[tile.orientation.0 as usize].shift_by(forward_or_backward);
            let attack_directions = move_direction.adjacent_values();
            proof {
                lemma_limited_slide_ends(self.edges(), i as int, attack_directions[0].0 as int, 1, BitBoard(0)@);
                lemma_limited_slide_ends(self.edges(), i as int, attack_directions[1].0 as int, 1, BitBoard(0)@);
            }
            let first = self.slides_from_in_direction(TileIndex(i), &attack_directions[0], 1, BitBoard(0));
            let second = self.slides_from_in_direction(TileIndex(i), &attack_directions[1], 1, BitBoard(0));
            proof {
                lemma_board_ops(first, second);
                let p = self.pawn_dir(i as int, *color);
                assert(move_direction.0 == p);
                assert(BitBoard(first.0 | second.0)@ =~= self.pawn_attacks(i as int, *color)) by {
                    assert forall|t: int| self.pawn_attacks(i as int, *color).contains(t) implies BitBoard(first.0 | second.0)@.contains(t) by {
                        let k = choose|k: int|
                            0 <= k < 2 && #[trigger] slide_reach(self.edges(), i as int, adjacent_direction(p, k, E as int), 1, Set::empty()).contains(t);
                        if k == 0 {} else {}
                    }
                    assert forall|t: int| BitBoard(first.0 | second.0)@.contains(t) implies self.pawn_attacks(i as int, *color).contains(t) by {
                        if first@.contains(t) {
                            assert(slide_reach(self.edges(), i as int, adjacent_direction(p, 0, E as int), 1, Set::empty()).contains(t));
                        } else {
                            assert(slide_reach(self.edges(), i as int, adjacent_direction(p, 1, E as int), 1, Set::empty()).contains(t));
                        }
                    }
                }
            }
            result.push(BitBoard(first.0 | second.0));
            i = i + 1;
        }
        JumpTable::new(result)
    }

    /// For each tile, a map from the blockers of a pawn of `color` to its
    /// double step: without blockers the double step (or nothing, off its
    /// start tiles), and with its single-step tile taken, nothing.
    pub fn pawn_double_table(&self, color: &Color) -> (r: DirectionalSlideTable)
        requires
            self.wf(),
            forall|s: int|
                0 <= s < self.nodes().len() && self.nodes()[s].1 == Some(*color) ==> #[trigger] self.pawn_step(s, *color)
                    != Set::<int>::empty(),
        ensures
            r.0@.len() == self.nodes().len(),
            forall|s: int|
                0 <= s < r.0@.len() ==> (#[trigger] r.0@[s])@ == map![0u128 => board_of(self.pawn_double_step(s, *color))].insert(
                    board_of(self.pawn_step(s, *color)).0,
                    BitBoard(0),
                ),
    {
        let mut attack_table: Vec<HashMap<u128, BitBoard>> = Vec::new();
        let single_table = self.pawn_single_table(color);
        let n = self.node_count();
        let mut i: usize = 0;
        proof {
            lemma_empty_board();
            lemma_board_of(Set::<int>::empty());
        }
        while i < n
            invariant
                self.wf(),
                n == self.nodes().len(),
                i <= n,
                BitBoard(0)@ == Set::<int>::empty(),
                board_of(Set::<int>::empty()) == BitBoard(0),
                forall|s: int|
                    0 <= s < self.nodes().len() && self.nodes()[s].1 == Some(*color) ==> #[trigger] self.pawn_step(s, *color)
                        != Set::<int>::empty(),
                single_table.0@.len() == n,
                forall|j: int| 0 <= j < n ==> (#[trigger] single_table.0@[j])@ == self.pawn_step(j, *color),
                attack_table@.len() == i,
                forall|s: int|
                    0 <= s < i ==> (#[trigger] attack_table@[s])@ == map![0u128 => board_of(self.pawn_double_step(s, *color))].insert(
                        board_of(self.pawn_step(s, *color)).0,
                        BitBoard(0),
                    ),
            decreases n - i,
        {
            let tile = self.tile(TileIndex(i));
            let single_row = single_table.get(TileIndex(i));
            proof {
                lemma_slide_reach_in_board(self.edges(), i as int, self.pawn_dir(i as int, *color), 1, Set::empty(), n as int);
                lemma_board_of(self.pawn_step(i as int, *color));
            }
            let unobstructed_attacks = match tile.pawn_start {
                Some(pawn_start_color) if pawn_start_color == *color => {
                    let intermediate_tile = single_row.lowest_one().unwrap();
                    proof {
                        lemma_lowest_tile(self.pawn_step(i as int, *color), intermediate_tile.0 as int);
                        let m = lowest_tile(self.pawn_step(i as int, *color));
                        lemma_slide_reach_in_board(self.edges(), m, self.pawn_dir(m, *color), 1, Set::empty(), n as int);
                        lemma_board_of(self.pawn_step(m, *color));
                    }
                    single_table.get(intermediate_tile)
                },
                _ => BitBoard(0),
            };
            assert(unobstructed_attacks == board_of(self.pawn_double_step(i as int, *color)));
            let mut attack_map: HashMap<u128, BitBoard> = HashMap::new();
            attack_map.insert(0u128, unobstructed_attacks);
            attack_map.insert(single_row.0, BitBoard(0));
            proof {
                assert(single_row == board_of(self.pawn_step(i as int, *color)));
                assert(attack_map@ =~= map![0u128 => board_of(self.pawn_double_step(i as int, *color))].insert(
                    board_of(self.pawn_step(i as int, *color)).0,
                    BitBoard(0),
                ));
            }
            attack_table.push(attack_map);
            i = i + 1;
        }
        DirectionalSlideTable::new(attack_table)
    }
}


impl<const N: u8, const E: u8> GraphBoard<N, E> {
    /// Every ray of the board, without obstructions, ends.
    pub open spec fn rays_end(&self) -> bool {
        forall|s: int, d: int|
            0 <= s < self.nodes().len() && 0 <= d < E ==> #[trigger] slide_ends(self.edges(), s, d, 0, Set::empty())
    }

    /// A pawn of `color` can step forward from each of its start tiles.
    pub open spec fn pawn_starts_step(&self, color: Color) -> bool {
        forall|s: int|
            0 <= s < self.nodes().len() && self.nodes()[s].1 == Some(color) ==> #[trigger] self.pawn_step(s, color)
                != Set::<int>::empty()
    }

    /// The pawn tables of `color` hold this board's pawn moves.
    pub open spec fn pawn_tables_match(&self, p: PawnTables, color: Color) -> bool {
        let n = self.nodes().len() as int;
        &&& p.single_table.0@.len() == n
        &&& p.attack_table.0@.len() == n
        &&& p.double_table.0@.len() == n
        &&& forall|i: int| 0 <= i < n ==> (#[trigger] p.single_table.0@[i])@ == self.pawn_step(i, color)
        &&& forall|i: int| 0 <= i < n ==> (#[trigger] p.attack_table.0@[i])@ == self.pawn_attacks(i, color)
        &&& forall|i: int|
            0 <= i < n ==> (#[trigger] p.double_table.0@[i])@ == map![0u128 => board_of(self.pawn_double_step(i, color))].insert(
                board_of(self.pawn_step(i, color)).0,
                BitBoard(0),
            )
        &&& p.promotion_board@ == PawnTables::promotion_tiles(p.single_table.0@)
    }

    /// The slide tables hold this board's slides.
    pub open spec fn slide_tables_match(&self, t: SlideTables) -> bool {
        &&& t.0@.len() == E
        &&& forall|d: int|
            0 <= d < E ==> {
                &&& (#[trigger] t.0@[d]).0@.len() == self.nodes().len()
                &&& forall|s: int| 0 <= s < self.nodes().len() ==> {
                    &&& (#[trigger] t.0@[d].0@[s])@.contains_key(0u128)
                    &&& t.0@[d].0@[s]@[0u128]@ == slide_reach(self.edges(), s, d, 0, Set::empty())
                    &&& forall|x: u128| t.0@[d].0@[s]@.contains_key(x) <==> subset_of_board(x, t.0@[d].0@[s]@[0u128])
                    &&& forall|x: u128|
                        #[trigger] t.0@[d].0@[s]@.contains_key(x) ==> t.0@[d].0@[s]@[x]@ == slide_reach(
                            self.edges(),
                            s,
                            d,
                            0,
                            BitBoard(x)@,
                        )
                }
            }
    }

    /// `t` holds this board's movement tables.
    pub open spec fn move_tables_match(&self, t: MoveTables) -> bool {
        let n = self.nodes().len() as int;
        &&& t.king_table.0@.len() == n
        &&& forall|i: int|
            0 <= i < n ==> (#[trigger] t.king_table.0@[i])@ == cast_reach(self.edges(), i, E as int, 1, Set::empty(), true, true)
        &&& t.knight_table.0@.len() == n
        &&& forall|i: int| 0 <= i < n ==> (#[trigger] t.knight_table.0@[i])@ == knight_reach(self.edges(), i, E as int)
        &&& self.slide_tables_match(t.slide_tables)
        &&& self.pawn_tables_match(t.white_pawn_tables, Color::White)
        &&& self.pawn_tables_match(t.black_pawn_tables, Color::Black)
        &&& t.reverse_slide_tables@.len() == E
        &&& forall|d: int|
            0 <= d < E ==> is_transpose((#[trigger] t.reverse_slide_tables@[d]).0@, t.slide_tables.0@[d].unblocked_rows())
        &&& is_transpose(t.reverse_knight_table.0@, t.knight_table.0@)
        &&& is_transpose(t.reverse_white_pawn_table.0@, t.white_pawn_tables.attack_table.0@)
        &&& is_transpose(t.reverse_black_pawn_table.0@, t.black_pawn_tables.attack_table.0@)
    }

    /// The single-step, double-step and attack tables of the pawns of
    /// `color`, with the promotion tiles they imply.
    pub fn pawn_tables(&self, color: &Color) -> (r: PawnTables)
        requires
            self.wf(),
            self.pawn_starts_step(*color),
        ensures
            self.pawn_tables_match(r, *color),
    {
        let single = self.pawn_single_table(color);
        let double = self.pawn_double_table(color);
        let attack = self.pawn_attack_table(color);
        PawnTables::new(single, double, attack)
    }

    proof fn lemma_pawn_tables_ok(&self, p: PawnTables, color: Color)
        requires
            self.wf(),
            self.pawn_tables_match(p, color),
        ensures
            pawn_ok(p, self.nodes().len() as int),
    {
        let n = self.nodes().len() as int;
        assert forall|i: int, t: int| 0 <= i < n && #[trigger] p.single_table.0@[i]@.contains(t) implies 0 <= t < n by {
            lemma_slide_reach_in_board(self.edges(), i, self.pawn_dir(i, color), 1, Set::empty(), n);
        }
        assert forall|i: int, t: int| 0 <= i < n && #[trigger] p.attack_table.0@[i]@.contains(t) implies 0 <= t < n by {
            let k = choose|k: int|
                0 <= k < 2 && #[trigger] slide_reach(
                    self.edges(),
                    i,
                    adjacent_direction(self.pawn_dir(i, color), k, E as int),
                    1,
                    Set::empty(),
                ).contains(t);
            lemma_slide_reach_in_board(self.edges(), i, adjacent_direction(self.pawn_dir(i, color), k, E as int), 1, Set::empty(), n);
        }
        lemma_empty_board();
        lemma_board_of(Set::<int>::empty());
        assert forall|i: int| 0 <= i < n implies {
            &&& (#[trigger] p.double_table.unblocked_rows()[i])@.subset_of(Set::new(|t: int| 0 <= t < n))
            &&& p.double_table.unblocked_rows()[i]@ != Set::<int>::empty() ==> p.single_table.0@[i]@ != Set::<int>::empty()
        } by {
            let single = self.pawn_step(i, color);
            let dbl = self.pawn_double_step(i, color);
            lemma_slide_reach_in_board(self.edges(), i, self.pawn_dir(i, color), 1, Set::empty(), n);
            lemma_board_of(single);
            if self.nodes()[i].1 == Some(color) {
                let m = lowest_tile(single);
                lemma_slide_reach_in_board(self.edges(), m, self.pawn_dir(m, color), 1, Set::empty(), n);
            }
            lemma_board_of(dbl);
            assert(p.double_table.0@[i]@.contains_key(0u128));
            if single == Set::<int>::empty() {
                assert(board_of(single) == BitBoard(0));
            }
        }
        assert(rows_within(p.double_table.unblocked_rows(), n)) by {
            assert forall|i: int, t: int| 0 <= i < p.double_table.unblocked_rows().len() && #[trigger] p.double_table.unblocked_rows()[i]@.contains(t) implies 0 <= t < n by {
                assert(p.double_table.unblocked_rows()[i]@.subset_of(Set::new(|t: int| 0 <= t < n)));
            }
        }
        assert forall|t: int| 0 <= t < n implies (#[trigger] p.double_table.0@[t])@.contains_key(0u128) by {}
    }

    proof fn lemma_slide_tables_ok(&self, slide_tables: SlideTables)
        requires
            self.wf(),
            self.slide_tables_match(slide_tables),
        ensures
            forall|d: int| 0 <= d < slide_tables.0@.len() ==> {
                &&& (#[trigger] slide_tables.0@[d]).complete()
                &&& slide_tables.0@[d].0@.len() <= 128
                &&& rows_within(slide_tables.0@[d].unblocked_rows(), slide_tables.0@[d].0@.len() as int)
            },
    {
        let n = self.nodes().len();
        assert forall|d: int| 0 <= d < slide_tables.0@.len() implies {
                &&& (#[trigger] slide_tables.0@[d]).complete()
                &&& slide_tables.0@[d].0@.len() <= 128
                &&& rows_within(slide_tables.0@[d].unblocked_rows(), slide_tables.0@[d].0@.len() as int)
            } by {
                assert forall|s: int, t: int| 0 <= s < n && #[trigger] slide_tables.0@[d].unblocked_rows()[s]@.contains(t) implies 0 <= t < n by {
                    lemma_slide_reach_in_board(self.edges(), s, d, 0, Set::empty(), n as int);
                    assert(slide_tables.0@[d].0@[s]@.contains_key(0u128));
                }
                assert forall|s: int| 0 <= s < slide_tables.0@[d].0@.len() implies crate::movement_tables::slide_map_complete(#[trigger] slide_tables.0@[d].0@[s]@) by {
                    assert(slide_tables.0@[d].0@[s]@.contains_key(0u128));
                }
            }
    }

    /// All movement tables of the board, the reverse tables included.
    pub fn move_tables(&self) -> (r: MoveTables)
        requires
            self.wf(),
            self.rays_end(),
            self.pawn_starts_step(Color::White),
            self.pawn_starts_step(Color::Black),
        ensures
            self.move_tables_match(r),
            r.wf(),
            r.num_tiles() == self.nodes().len(),
    {
        let n = self.node_count();
        let king_table = self.king_move_table();
        let slide_tables = self.all_slide_tables();
        let knight_table = self.knight_jumps_table();
        let white_pawn_tables = self.pawn_tables(&Color::White);
        let black_pawn_tables = self.pawn_tables(&Color::Black);
        proof {
            self.lemma_pawn_tables_ok(white_pawn_tables, Color::White);
            self.lemma_pawn_tables_ok(black_pawn_tables, Color::Black);
            assert forall|i: int, t: int| 0 <= i < n && #[trigger] king_table.0@[i]@.contains(t) implies 0 <= t < n by {
                let d = choose|d: int|
                    0 <= d < E && direction_selected(d, true, true)
                        && #[trigger] slide_reach(self.edges(), i, d, 1, Set::empty()).contains(t);
                lemma_slide_reach_in_board(self.edges(), i, d, 1, Set::empty(), n as int);
            }
            assert forall|i: int, t: int| 0 <= i < n && #[trigger] knight_table.0@[i]@.contains(t) implies 0 <= t < n by {
                let (d, k) = choose|d: int, k: int|
                    0 <= d < E && 0 <= k < 2 && #[trigger] knight_path(self.edges(), i, E as int, d, k) == Some(t);
                lemma_step_in_board(self.edges(), i, d, n as int);
                let mid = step(self.edges(), i, d).unwrap();
                lemma_step_in_board(self.edges(), mid, adjacent_direction(d, k, E as int), n as int);
            }
            self.lemma_slide_tables_ok(slide_tables);
        }
        let second_slide_tables = self.all_slide_tables();
        proof {
            self.lemma_slide_tables_ok(second_slide_tables);
        }
        let reverse_slide_tables = second_slide_tables.reverse();
        let second_knight_table = self.knight_jumps_table();
        proof {
            lemma_rows_equal(second_knight_table.0@, knight_table.0@);
        }
        let reverse_knight_table = second_knight_table.reverse();
        let white_attacks = self.pawn_attack_table(&Color::White);
        let black_attacks = self.pawn_attack_table(&Color::Black);
        proof {
            lemma_rows_equal(white_attacks.0@, white_pawn_tables.attack_table.0@);
            lemma_rows_equal(black_attacks.0@, black_pawn_tables.attack_table.0@);
        }
        let reverse_white_pawn_table = white_attacks.reverse();
        let reverse_black_pawn_table = black_attacks.reverse();
        let r = MoveTables {
            king_table,
            slide_tables,
            knight_table,
            white_pawn_tables,
            black_pawn_tables,
            reverse_slide_tables,
            reverse_knight_table,
            reverse_white_pawn_table,
            reverse_black_pawn_table,
        };
        proof {
            assert forall|d: int| 0 <= d < r.reverse_slide_tables@.len() implies jump_ok(#[trigger] r.reverse_slide_tables@[d], n as int) by {
                assert(is_transpose(r.reverse_slide_tables@[d].0@, r.slide_tables.0@[d].unblocked_rows()));
            }
            assert(jump_ok(r.reverse_knight_table, n as int));
            assert(jump_ok(r.reverse_white_pawn_table, n as int));
            assert(jump_ok(r.reverse_black_pawn_table, n as int));
        }
        r
    }
}


impl<const N: u8, const E: u8> GraphBoard<N, E> {
    /// Whether the ray from `source_tile` in `direction`, with nothing in the
    /// way, ends within the first `u32::MAX` steps.
    pub fn ray_ends(&self, source_tile: TileIndex, direction: &LimitedInt<E>) -> (r: bool)
        requires
            self.wf(),
            source_tile.0 < self.nodes().len(),
        ensures
            r == slide_ends(self.edges(), source_tile.0 as int, direction.0 as int, 0, Set::empty()),
    {
        let ghost edges = self.edges();
        let ghost s = source_tile.0 as int;
        let ghost d = direction.0 as int;
        let mut current_tile = source_tile;
        let mut k: u32 = 0;
        loop
            invariant
                self.wf(),
                edges == self.edges(),
                s == source_tile.0,
                d == direction.0,
                current_tile.0 < self.nodes().len(),
                ray_tile(edges, s, d, k as nat) == Some(current_tile.0 as int),
                forall|j: nat| 1 <= j <= k ==> (#[trigger] ray_tile(edges, s, d, j)) is Some,
            decreases u32::MAX - k,
        {
            if k == u32::MAX {
                proof {
                    assert forall|j: nat| 1 <= j <= u32::MAX implies !#[trigger] ray_stops(edges, s, d, 0, Set::empty(), j) by {
                        assert(ray_tile(edges, s, d, j) is Some);
                    }
                }
                return false;
            }
            match self.get_next_tile_in_direction(current_tile, direction) {
                None => {
                    proof {
                        assert(ray_stops(edges, s, d, 0, Set::empty(), (k + 1) as nat));
                    }
                    return true;
                },
                Some(next) => {
                    proof {
                        lemma_step_in_board(edges, current_tile.0 as int, d, self.nodes().len() as int);
                        assert(ray_tile(edges, s, d, (k + 1) as nat) == Some(next.0 as int));
                    }
                    current_tile = next;
                    k = k + 1;
                },
            }
        }
    }

    /// Whether every ray of the board ends (see `ray_ends`).
    pub fn rays_end_check(&self) -> (r: bool)
        requires
            self.wf(),
        ensures
            r == self.rays_end(),
    {
        let n = self.node_count();
        let directions = LimitedInt::<E>::all_values();
        let mut s: usize = 0;
        while s < n
            invariant
                self.wf(),
                n == self.nodes().len(),
                s <= n,
                directions@.len() == E,
                forall|j: int| 0 <= j < E ==> (#[trigger] directions@[j]).0 == j,
                forall|x: int, d: int|
                    0 <= x < s && 0 <= d < E ==> #[trigger] slide_ends(self.edges(), x, d, 0, Set::empty()),
            decreases n - s,
        {
            let mut i: usize = 0;
            while i < directions.len()
                invariant
                    self.wf(),
                    n == self.nodes().len(),
                    s < n,
                    i <= directions@.len(),
                    directions@.len() == E,
                    forall|j: int| 0 <= j < E ==> (#[trigger] directions@[j]).0 == j,
                    forall|x: int, d: int|
                        0 <= x < s && 0 <= d < E ==> #[trigger] slide_ends(self.edges(), x, d, 0, Set::empty()),
                    forall|d: int| 0 <= d < i ==> #[trigger] slide_ends(self.edges(), s as int, d, 0, Set::empty()),
                decreases directions@.len() - i,
            {
                if !self.ray_ends(TileIndex(s), &directions[i]) {
                    return false;
                }
                i = i + 1;
            }
            s = s + 1;
        }
        true
    }

    /// Whether a pawn of `color` can step forward from each of its start
    /// tiles.
    pub fn pawn_starts_step_check(&self, color: &Color) -> (r: bool)
        requires
            self.wf(),
        ensures
            r == self.pawn_starts_step(*color),
    {
        let single = self.pawn_single_table(color);
        let n = self.node_count();
        let mut s: usize = 0;
        while s < n
            invariant
                self.wf(),
                n == self.nodes().len(),
                s <= n,
                single.0@.len() == n,
                forall|i: int| 0 <= i < n ==> (#[trigger] single.0@[i])@ == self.pawn_step(i, *color),
                forall|x: int|
                    0 <= x < s && self.nodes()[x].1 == Some(*color) ==> #[trigger] self.pawn_step(x, *color)
                        != Set::<int>::empty(),
            decreases n - s,
        {
            let tile = self.tile(TileIndex(s));
            if tile.pawn_start == Some(*color) && single.get(TileIndex(s)).is_zero() {
                return false;
            }
            s = s + 1;
        }
        true
    }

    /// The movement tables, when every ray of the board ends and every pawn
    /// start tile has a step forward (otherwise building the tables would not
    /// terminate, or would fail on a start tile).
    pub fn checked_move_tables(&self) -> (r: Option<MoveTables>)
        requires
            self.wf(),
        ensures
            r is Some <==> (self.rays_end() && self.pawn_starts_step(Color::White) && self.pawn_starts_step(
                Color::Black,
            )),
            r matches Some(t) ==> self.move_tables_match(t) && t.wf() && t.num_tiles() == self.nodes().len(),
    {
        if self.rays_end_check() && self.pawn_starts_step_check(&Color::White) && self.pawn_starts_step_check(
            &Color::Black,
        ) {
            Some(self.move_tables())
        } else {
            None
        }
    }
}

} // verus!
