use vstd::prelude::*;
use std::ops::{BitAnd, BitOr, Not, Sub};

use crate::bits::{
    has_bit, single_bit, lemma_bits_ext, lemma_has_bit_or, lemma_has_bit_and, lemma_has_bit_not,
    lemma_has_bit_single, lemma_has_bit_flip, lemma_has_bit_zero, lemma_nonzero_has_bit,
    u128_trailing_zeros,
};
use crate::graph_boards::graph_board::TileIndex;
use crate::chess_move::Move;
use crate::piece_set::PieceType;

verus! {

/// A set of tiles with indices below 128, one bit per tile.
#[derive(Debug, PartialEq, Eq, Clone, Copy, Hash, Structural)]
pub struct BitBoard(pub u128);

impl View for BitBoard {
    type V = Set<int>;

    open spec fn view(&self) -> Set<int> {
        Set::new(|i: int| has_bit(self.0, i))
    }
}

/// The sum of `2^t` over the entries `t` of `s`.
pub open spec fn sum_of_bits(s: Seq<u128>) -> int
    decreases s.len(),
{
    if s.len() == 0 {
        0
    } else {
        sum_of_bits(s.drop_last()) + single_bit(s.last() as int)
    }
}

/// The tiles in a sequence of tile numbers.
pub open spec fn tiles_of(s: Seq<u128>) -> Set<int> {
    Set::new(|i: int| exists|k: int| 0 <= k < s.len() && s[k] == i)
}

pub proof fn lemma_view_ext(a: BitBoard, b: BitBoard)
    requires
        a@ =~= b@,
    ensures
        a == b,
{
    assert forall|i: int| 0 <= i < 128 implies has_bit(a.0, i) == has_bit(b.0, i) by {
        assert(a@.contains(i) == b@.contains(i));
    }
    lemma_bits_ext(a.0, b.0);
}

/// A board holds finitely many tiles, all below 128.
pub proof fn lemma_board_finite(b: BitBoard)
    ensures
        b@.finite(),
        b@.subset_of(vstd::set_lib::set_int_range(0, 128)),
        b@.len() <= 128,
{
    let all = vstd::set_lib::set_int_range(0, 128);
    vstd::set_lib::lemma_int_range(0, 128);
    assert(b@.subset_of(all));
    vstd::set_lib::lemma_set_subset_finite(all, b@);
    vstd::set_lib::lemma_len_subset(b@, all);
}

/// The board holding exactly the tiles of `s` (meaningful when `s` holds
/// only tiles below 128).
pub open spec fn board_of(s: Set<int>) -> BitBoard {
    choose|b: BitBoard| b@ == s
}

proof fn lemma_board_exists_below(s: Set<int>, lo: int) -> (b: BitBoard)
    requires
        0 <= lo <= 128,
    ensures
        b@ == s.intersect(vstd::set_lib::set_int_range(0, lo)),
    decreases lo,
{
    if lo == 0 {
        assert forall|i: int| !BitBoard(0)@.contains(i) by {
            crate::bits::lemma_has_bit_zero(i);
        }
        assert(BitBoard(0)@ =~= s.intersect(vstd::set_lib::set_int_range(0, lo)));
        BitBoard(0)
    } else {
        let prev = lemma_board_exists_below(s, lo - 1);
        let i = lo - 1;
        if s.contains(i) {
            let b = BitBoard(prev.0 | single_bit(i));
            assert forall|j: int| #![auto] b@.contains(j) == s.intersect(vstd::set_lib::set_int_range(0, lo)).contains(j) by {
                lemma_has_bit_or(prev.0, single_bit(i), j);
                lemma_has_bit_single(i, j);
                assert(b@.contains(j) == has_bit(b.0, j));
                assert(prev@.contains(j) == has_bit(prev.0, j));
                assert(prev@.contains(j) == (s.contains(j) && 0 <= j < lo - 1));
            }
            assert(b@ =~= s.intersect(vstd::set_lib::set_int_range(0, lo)));
            b
        } else {
            assert(prev@ =~= s.intersect(vstd::set_lib::set_int_range(0, lo)));
            prev
        }
    }
}

/// Every set of tiles below 128 is the view of exactly one board.
pub proof fn lemma_board_of(s: Set<int>)
    requires
        forall|i: int| s.contains(i) ==> 0 <= i < 128,
    ensures
        board_of(s)@ == s,
        forall|b: BitBoard| b@ == s ==> b == board_of(s),
{
    let b = lemma_board_exists_below(s, 128);
    assert(b@ =~= s);
    assert(exists|b: BitBoard| b@ == s);
    assert forall|c: BitBoard| c@ == s implies c == board_of(s) by {
        lemma_view_ext(c, board_of(s));
    }
}

/// The lowest tile of a set of tiles.
pub open spec fn lowest_tile(s: Set<int>) -> int {
    choose|t: int| s.contains(t) && forall|j: int| 0 <= j < t ==> !s.contains(j)
}

pub proof fn lemma_lowest_tile(s: Set<int>, t: int)
    requires
        0 <= t,
        s.contains(t),
        forall|j: int| 0 <= j < t ==> !s.contains(j),
        forall|j: int| s.contains(j) ==> 0 <= j,
    ensures
        lowest_tile(s) == t,
{
    let u = lowest_tile(s);
    assert(s.contains(u) && forall|j: int| 0 <= j < u ==> !s.contains(j));
    if u < t {
        assert(!s.contains(u));
    }
    if t < u {
        assert(!s.contains(t));
    }
}

proof fn lemma_sum_of_bits_prefix(s: Seq<u128>, n: int)
    requires
        0 <= n <= s.len(),
    ensures
        sum_of_bits(s.subrange(0, n)) <= sum_of_bits(s),
    decreases s.len() - n,
{
    if n < s.len() {
        lemma_sum_of_bits_prefix(s, n + 1);
        assert(s.subrange(0, n + 1).drop_last() =~= s.subrange(0, n));
    } else {
        assert(s.subrange(0, n) =~= s);
    }
}

impl BitBoard {
    /// The board whose bits are those of `n`.
    pub fn new(n: u128) -> (r: BitBoard)
        ensures
            r.0 == n,
    {
        BitBoard(n)
    }

    /// The board with no tiles.
    pub fn empty() -> (r: BitBoard)
        ensures
            r.0 == 0,
            r@ == Set::<int>::empty(),
    {
        proof {
            assert forall|i: int| !BitBoard(0)@.contains(i) by {
                lemma_has_bit_zero(i);
            }
            assert(BitBoard(0)@ =~= Set::<int>::empty());
        }
        BitBoard(0)
    }

    /// The board holding exactly the given tiles.
    pub fn from_tile_indices(tiles: Vec<TileIndex>) -> (r: BitBoard)
        requires
            forall|k: int| 0 <= k < tiles@.len() ==> (#[trigger] tiles@[k]).0 < 128,
        ensures
            r@ == Set::new(|t: int| exists|k: int| 0 <= k < tiles@.len() && (#[trigger] tiles@[k]).0 == t),
    {
        let mut result: u128 = 0;
        let mut idx: usize = 0;
        proof {
            assert forall|i: int| #![auto] !BitBoard(0)@.contains(i) by {
                lemma_has_bit_zero(i);
            }
            assert(BitBoard(0)@ =~= Set::new(|t: int| exists|k: int| 0 <= k < 0 && (#[trigger] tiles@[k]).0 == t));
        }
        while idx < tiles.len()
            invariant
                idx <= tiles@.len(),
                forall|k: int| 0 <= k < tiles@.len() ==> (#[trigger] tiles@[k]).0 < 128,
                BitBoard(result)@ == Set::new(|t: int| exists|k: int| 0 <= k < idx && (#[trigger] tiles@[k]).0 == t),
            decreases tiles@.len() - idx,
        {
            let tile = tiles[idx].index();
            let ghost before = result;
            result = result | (1u128 << (tile as u128));
            proof {
                assert forall|i: int| #![auto] BitBoard(result)@.contains(i) == (BitBoard(before)@.contains(i) || i == tile) by {
                    lemma_has_bit_or(before, single_bit(tile as int), i);
                    lemma_has_bit_single(tile as int, i);
                }
                assert(BitBoard(result)@ =~= Set::new(|t: int| exists|k: int| 0 <= k < idx + 1 && (#[trigger] tiles@[k]).0 == t)) by {
                    assert forall|t: int| BitBoard(result)@.contains(t) implies exists|k: int| 0 <= k < idx + 1 && (#[trigger] tiles@[k]).0 == t by {
                        if t == tile {
                            assert(tiles@[idx as int].0 == t);
                        }
                    }
                }
            }
            idx = idx + 1;
        }
        BitBoard(result)
    }

    /// The sum of `2^t` over the given tile numbers: the board holding exactly
    /// those tiles when no number repeats.
    pub fn from_ints(ints: Vec<u128>) -> (r: BitBoard)
        requires
            forall|k: int| 0 <= k < ints@.len() ==> ints@[k] < 128,
            sum_of_bits(ints@) <= u128::MAX,
        ensures
            r.0 == sum_of_bits(ints@),
            ints@.no_duplicates() ==> r@ == tiles_of(ints@),
    {
        let mut result: u128 = 0;
        let mut idx: usize = 0;
        proof {
            assert forall|i: int| #![auto] !BitBoard(0)@.contains(i) by {
                lemma_has_bit_zero(i);
            }
            assert(BitBoard(0)@ =~= tiles_of(ints@.subrange(0, 0)));
        }
        while idx < ints.len()
            invariant
                idx <= ints@.len(),
                forall|k: int| 0 <= k < ints@.len() ==> ints@[k] < 128,
                sum_of_bits(ints@) <= u128::MAX,
                result == sum_of_bits(ints@.subrange(0, idx as int)),
                ints@.no_duplicates() ==> BitBoard(result)@ == tiles_of(ints@.subrange(0, idx as int)),
            decreases ints@.len() - idx,
        {
            let tile = ints[idx];
            proof {
                let pre = ints@.subrange(0, idx as int);
                let post = ints@.subrange(0, idx as int + 1);
                assert(post.drop_last() =~= pre);
                lemma_sum_of_bits_prefix(ints@, idx as int + 1);
                if ints@.no_duplicates() {
                    let bit = single_bit(tile as int);
                    assert(!has_bit(result, tile as int)) by {
                        if has_bit(result, tile as int) {
                            assert(tiles_of(pre).contains(tile as int));
                            let k = choose|k: int| 0 <= k < pre.len() && pre[k] == tile as int;
                            assert(ints@[k] == ints@[idx as int]);
                        }
                    }
                    let t = tile;
                    assert((result >> t) & 1u128 != 1u128 ==> result + (1u128 << t) == (result | (
                    1u128 << t))) by (bit_vector)
                        requires
                            t < 128,
                    ;
                    assert forall|i: int| #![auto]
                        BitBoard((result | bit) as u128)@.contains(i) == tiles_of(post).contains(i) by {
                        lemma_has_bit_or(result, bit, i);
                        lemma_has_bit_single(tile as int, i);
                        assert(BitBoard(result)@.contains(i) == tiles_of(pre).contains(i));
                        if tiles_of(post).contains(i) {
                            let k = choose|k: int| 0 <= k < post.len() && post[k] == i;
                            if k < idx {
                                assert(pre[k] == i);
                            }
                        }
                        if tiles_of(pre).contains(i) {
                            let k = choose|k: int| 0 <= k < pre.len() && pre[k] == i;
                            assert(post[k] == i);
                        }
                        if i == tile as int {
                            assert(post[idx as int] == i);
                        }
                    }
                    assert(BitBoard((result | bit) as u128)@ =~= tiles_of(post));
                }
            }
            result = result + (1u128 << tile);
            idx = idx + 1;
        }
        proof {
            assert(ints@.subrange(0, ints@.len() as int) =~= ints@);
        }
        BitBoard(result)
    }

    /// Whether the tile is on the board.
    pub fn get_bit_at_tile(self, tile: &TileIndex) -> (r: bool)
        requires
            tile.0 < 128,
        ensures
            r == self@.contains(tile.0 as int),
    {
        let t = tile.index() as u128;
        let mask: u128 = 1u128 << t;
        let x = self.0;
        assert((x & (1u128 << t)) != 0 <==> (x >> t) & 1u128 == 1u128) by (bit_vector)
            requires
                t < 128,
        ;
        (self.0 & mask) != 0
    }

    /// Adds the tile when it is absent, removes it when present.
    pub fn flip_bit_at_tile_index(&mut self, tile: TileIndex)
        requires
            tile.0 < 128,
        ensures
            final(self).0 == old(self).0 ^ single_bit(tile.0 as int),
            final(self)@ == if old(self)@.contains(tile.0 as int) {
                old(self)@.remove(tile.0 as int)
            } else {
                old(self)@.insert(tile.0 as int)
            },
    {
        let t = tile.index() as u128;
        let mask: u128 = 1u128 << t;
        let old_value = self.0;
        self.0 = self.0 ^ mask;
        proof {
            let target = if BitBoard(old_value)@.contains(tile.0 as int) {
                BitBoard(old_value)@.remove(tile.0 as int)
            } else {
                BitBoard(old_value)@.insert(tile.0 as int)
            };
            assert forall|i: int| #![auto] self@.contains(i) == target.contains(i) by {
                lemma_has_bit_flip(old_value, tile.0 as int, i);
            }
            assert(self@ =~= target);
        }
    }

    /// Whether the board holds no tile.
    pub fn is_zero(&self) -> (r: bool)
        ensures
            r == (self.0 == 0),
            r == (self@ == Set::<int>::empty()),
    {
        proof {
            if self.0 == 0 {
                assert forall|i: int| !self@.contains(i) by {
                    lemma_has_bit_zero(i);
                }
                assert(self@ =~= Set::<int>::empty());
            } else {
                let i = lemma_nonzero_has_bit(self.0);
                assert(self@.contains(i));
            }
        }
        if self.0 == 0 {
            return true;
        }
        false
    }

    /// The tile with the smallest index on the board, if any.
    pub fn lowest_one(&self) -> (r: Option<TileIndex>)
        ensures
            r is None <==> self@ == Set::<int>::empty(),
            r matches Some(t) ==> t.0 < 128 && self@.contains(t.0 as int) && forall|j: int|
                0 <= j < t.0 ==> !self@.contains(j),
    {
        if self.is_zero() == true {
            None
        } else {
            let tz = u128_trailing_zeros(self.0);
            proof {
                assert(self@.contains(tz as int));
            }
            Some(TileIndex::new(tz as usize))
        }
    }
}

impl Sub for BitBoard {
    type Output = Self;

    fn sub(self, other: Self) -> (r: Self::Output) {
        BitBoard((self.0 | !other.0) + 1)
    }
}

impl vstd::std_specs::ops::SubSpecImpl for BitBoard {
    open spec fn obeys_sub_spec() -> bool {
        true
    }

    open spec fn sub_req(self, other: BitBoard) -> bool {
        (self.0 | !other.0) < u128::MAX
    }

    open spec fn sub_spec(self, other: BitBoard) -> BitBoard {
        BitBoard(((self.0 | !other.0) + 1) as u128)
    }
}

impl BitAnd for BitBoard {
    type Output = Self;

    fn bitand(self, rhs: Self) -> (r: Self::Output) {
        BitBoard(self.0 & rhs.0)
    }
}

impl vstd::std_specs::ops::BitAndSpecImpl for BitBoard {
    open spec fn obeys_bitand_spec() -> bool {
        true
    }

    open spec fn bitand_req(self, rhs: BitBoard) -> bool {
        true
    }

    open spec fn bitand_spec(self, rhs: BitBoard) -> BitBoard {
        BitBoard(self.0 & rhs.0)
    }
}

impl BitOr for BitBoard {
    type Output = Self;

    fn bitor(self, rhs: Self) -> (r: Self::Output) {
        BitBoard(self.0 | rhs.0)
    }
}

impl vstd::std_specs::ops::BitOrSpecImpl for BitBoard {
    open spec fn obeys_bitor_spec() -> bool {
        true
    }

    open spec fn bitor_req(self, rhs: BitBoard) -> bool {
        true
    }

    open spec fn bitor_spec(self, rhs: BitBoard) -> BitBoard {
        BitBoard(self.0 | rhs.0)
    }
}

impl Not for BitBoard {
    type Output = Self;

    fn not(self) -> (r: Self::Output) {
        BitBoard(!self.0)
    }
}

impl vstd::std_specs::ops::NotSpecImpl for BitBoard {
    open spec fn obeys_not_spec() -> bool {
        true
    }

    open spec fn not_req(self) -> bool {
        true
    }

    open spec fn not_spec(self) -> BitBoard {
        BitBoard(!self.0)
    }
}

/// The set-algebra reading of the bitwise operators on boards.
pub proof fn lemma_board_ops(a: BitBoard, b: BitBoard)
    ensures
        BitBoard(a.0 | b.0)@ == a@.union(b@),
        BitBoard(a.0 & b.0)@ == a@.intersect(b@),
        BitBoard(!a.0)@ == Set::new(|i: int| 0 <= i < 128).difference(a@),
        BitBoard(a.0 & !b.0)@ == a@.difference(b@),
{
    assert forall|i: int| #![auto] BitBoard(a.0 | b.0)@.contains(i) == a@.union(b@).contains(i) by {
        lemma_has_bit_or(a.0, b.0, i);
    }
    assert(BitBoard(a.0 | b.0)@ =~= a@.union(b@));
    assert forall|i: int| #![auto] BitBoard(a.0 & b.0)@.contains(i) == a@.intersect(b@).contains(i) by {
        lemma_has_bit_and(a.0, b.0, i);
    }
    assert(BitBoard(a.0 & b.0)@ =~= a@.intersect(b@));
    assert forall|i: int| #![auto]
        BitBoard(!a.0)@.contains(i) == Set::new(|i: int| 0 <= i < 128).difference(a@).contains(i) by {
        if 0 <= i < 128 {
            lemma_has_bit_not(a.0, i);
        }
    }
    assert(BitBoard(!a.0)@ =~= Set::new(|i: int| 0 <= i < 128).difference(a@));
    assert forall|i: int| #![auto] BitBoard(a.0 & !b.0)@.contains(i) == a@.difference(b@).contains(i) by {
        lemma_has_bit_and(a.0, !b.0, i);
        if 0 <= i < 128 {
            lemma_has_bit_not(b.0, i);
        }
    }
    assert(BitBoard(a.0 & !b.0)@ =~= a@.difference(b@));
}

} // verus!

verus! {

/// `(c | !m) + 1` masked by `m` is the smallest subset of `m` that is
/// numerically greater than the subset `c`.
proof fn lemma_next_subset(c: u128, m: u128, x: u128)
    requires
        c & m == c,
        c != m,
    ensures
        (c | !m) < u128::MAX,
        c < ((((c | !m) + 1) as u128) & m),
        (x & m == x && c < x) ==> ((((c | !m) + 1) as u128) & m) <= x,
{
    assert((c | !m) < u128::MAX) by (bit_vector)
        requires
            c & m == c,
            c != m,
    ;
    let r = (((c | !m) + 1) as u128) & m;
    assert(c < r) by (bit_vector)
        requires
            c & m == c,
            c != m,
            r == (((c | !m) + 1) as u128) & m,
    ;
    assert((x & m == x && c < x) ==> r <= x) by (bit_vector)
        requires
            c & m == c,
            c != m,
            r == (((c | !m) + 1) as u128) & m,
    ;
}

/// Whether `x` is a subset of `m`, as bit patterns.
pub open spec fn is_subset_bits(x: u128, m: u128) -> bool {
    x & m == x
}

/// The least subset of `m` above `c`.
pub open spec fn next_subset(c: u128, m: u128) -> u128 {
    choose|x: u128| is_subset_bits(x, m) && c < x && forall|y: u128| is_subset_bits(y, m) && c < y ==> x <= y
}

/// The subsets of `m` above `c`, in increasing order.
pub open spec fn subsets_after(c: u128, m: u128) -> Seq<u128>
    decreases m - c,
{
    let n = next_subset(c, m);
    if c < m && c < n && n <= m {
        seq![n] + subsets_after(n, m)
    } else {
        Seq::empty()
    }
}

proof fn lemma_subset_below(x: u128, m: u128)
    requires
        is_subset_bits(x, m),
    ensures
        x <= m,
{
    assert(x & m == x ==> x <= m) by (bit_vector);
}

/// A subset of `m` above `c` that is below `y` or equal to it, for every
/// subset `y` above `c`: the least one exists when some subset lies above `c`.
proof fn lemma_least_subset_exists(c: u128, m: u128, y: u128)
    requires
        is_subset_bits(y, m),
        c < y,
    ensures
        is_subset_bits(next_subset(c, m), m),
        c < next_subset(c, m),
        forall|z: u128| is_subset_bits(z, m) && c < z ==> next_subset(c, m) <= z,
    decreases y,
{
    if exists|z: u128| is_subset_bits(z, m) && c < z && z < y {
        let z = choose|z: u128| is_subset_bits(z, m) && c < z && z < y;
        lemma_least_subset_exists(c, m, z);
    } else {
        assert(is_subset_bits(y, m) && c < y && forall|z: u128| is_subset_bits(z, m) && c < z ==> y <= z);
    }
}

/// The subsets after `c` are strictly increasing and are exactly the subsets
/// of `m` above `c`, each once; when `c` is below `m`, the last is `m` itself.
pub proof fn lemma_subsets_after(c: u128, m: u128)
    ensures
        forall|i: int, j: int|
            0 <= i < j < subsets_after(c, m).len() ==> subsets_after(c, m)[i] < subsets_after(c, m)[j],
        forall|x: u128| #[trigger] subsets_after(c, m).contains(x) <==> (is_subset_bits(x, m) && c < x),
        c < m ==> subsets_after(c, m).len() > 0 && subsets_after(c, m).last() == m,
    decreases m - c,
{
    assert(m & m == m) by (bit_vector);
    let n = next_subset(c, m);
    let a = subsets_after(c, m);
    if c < m {
        lemma_least_subset_exists(c, m, m);
        lemma_subset_below(n, m);
        lemma_subsets_after(n, m);
        let rest = subsets_after(n, m);
        assert(a == seq![n] + rest);
        assert forall|x: u128| #[trigger] a.contains(x) <==> (is_subset_bits(x, m) && c < x) by {
            if a.contains(x) {
                let i = choose|i: int| 0 <= i < a.len() && a[i] == x;
                if i > 0 {
                    assert(a[i] == rest[i - 1]);
                    assert(rest.contains(x));
                }
            }
            if is_subset_bits(x, m) && c < x {
                if x == n {
                    assert(a[0] == x);
                } else {
                    assert(n <= x);
                    assert(rest.contains(x));
                    let i = choose|i: int| 0 <= i < rest.len() && rest[i] == x;
                    assert(a[i + 1] == rest[i]);
                }
            }
        }
        assert forall|i: int, j: int| 0 <= i < j < a.len() implies a[i] < a[j] by {
            assert(a[j] == rest[j - 1]);
            assert(rest.contains(rest[j - 1]));
            if i > 0 {
                assert(a[i] == rest[i - 1]);
            }
        }
        assert(a.contains(m));
        let im = choose|im: int| 0 <= im < a.len() && a[im] == m;
        assert(a.contains(a.last()));
        lemma_subset_below(a.last(), m);
        if im < a.len() - 1 {
            assert(a[im] < a[a.len() - 1]);
        }
    } else {
        assert(a == Seq::<u128>::empty());
        assert forall|x: u128| #[trigger] a.contains(x) <==> (is_subset_bits(x, m) && c < x) by {
            if is_subset_bits(x, m) {
                lemma_subset_below(x, m);
            }
        }
    }
}

/// Enumerates the subsets of a mask in increasing numeric order, from the
/// smallest non-empty one up to the mask itself.
pub struct CarryRippler {
    mask: BitBoard,
    current_subset: BitBoard,
}

impl CarryRippler {
    /// The mask whose subsets are enumerated.
    pub closed spec fn mask(&self) -> u128 {
        self.mask.0
    }

    /// The subset handed out last (zero before the first call of `next`).
    pub closed spec fn current(&self) -> u128 {
        self.current_subset.0
    }

    pub closed spec fn wf(&self) -> bool {
        is_subset_bits(self.current_subset.0, self.mask.0)
    }

    pub fn new(mask: BitBoard) -> (r: CarryRippler)
        ensures
            r.wf(),
            r.mask() == mask.0,
            r.current() == 0,
    {
        let r = CarryRippler { mask, current_subset: BitBoard(0) };
        proof {
            let m = mask.0;
            assert(0u128 & m == 0u128) by (bit_vector);
        }
        r
    }

    /// The next subset of the mask, or `None` once the mask itself has been
    /// handed out.
    pub fn next(&mut self) -> (r: Option<BitBoard>)
        requires
            old(self).wf(),
        ensures
            final(self).wf(),
            final(self).mask() == old(self).mask(),
            old(self).current() == old(self).mask() ==> r is None,
            old(self).current() == old(self).mask() ==> final(self).current() == old(self).current(),
            old(self).current() != old(self).mask() ==> r is Some,
            r matches Some(b) ==> b.0 == final(self).current(),
            r matches Some(b) ==> {
                &&& is_subset_bits(b.0, old(self).mask())
                &&& old(self).current() < b.0
                &&& forall|x: u128|
                    is_subset_bits(x, old(self).mask()) && old(self).current() < x ==> b.0 <= x
            },
            r is None ==> subsets_after(old(self).current(), old(self).mask()) == Seq::<u128>::empty(),
            r matches Some(b) ==> subsets_after(old(self).current(), old(self).mask()) == seq![b.0]
                + subsets_after(b.0, old(self).mask()),
    {
        if self.current_subset == self.mask {
            return None;
        }
        let ghost c0 = self.current_subset.0;
        proof {
            let c = self.current_subset.0;
            let m = self.mask.0;
            assert forall|x: u128| is_subset_bits(x, m) && c < x implies ((((c | !m) + 1) as u128)
                & m) <= x by {
                lemma_next_subset(c, m, x);
            }
            lemma_next_subset(c, m, 0);
            let r = (((c | !m) + 1) as u128) & m;
            assert(r & m == r) by (bit_vector)
                requires
                    r == (((c | !m) + 1) as u128) & m,
            ;
        }
        self.current_subset = (self.current_subset - self.mask) & self.mask;
        proof {
            let m = self.mask.0;
            let b = self.current_subset.0;
            lemma_subset_below(c0, m);
            lemma_subset_below(b, m);
            lemma_least_subset_exists(c0, m, b);
            let n = next_subset(c0, m);
            assert(n <= b && b <= n);
        }
        Some(self.current_subset)
    }
}

/// The tiles of `s` from `lo` below 128, in increasing order.
pub open spec fn ascending_tiles(s: Set<int>, lo: int) -> Seq<int>
    decreases 128 - lo,
{
    if lo < 0 || lo >= 128 {
        Seq::empty()
    } else {
        (if s.contains(lo) {
            seq![lo]
        } else {
            Seq::empty()
        }) + ascending_tiles(s, lo + 1)
    }
}

proof fn lemma_ascending_tiles_agree(a: Set<int>, b: Set<int>, lo: int)
    requires
        0 <= lo,
        forall|i: int| lo <= i < 128 ==> a.contains(i) == b.contains(i),
    ensures
        ascending_tiles(a, lo) == ascending_tiles(b, lo),
    decreases 128 - lo,
{
    if lo < 128 {
        lemma_ascending_tiles_agree(a, b, lo + 1);
    }
}

/// Splitting off the lowest tile from `lo` on.
proof fn lemma_ascending_tiles_lowest(s: Set<int>, lo: int, t: int)
    requires
        0 <= lo <= t < 128,
        s.contains(t),
        forall|i: int| lo <= i < t ==> !s.contains(i),
    ensures
        ascending_tiles(s, lo) == seq![t] + ascending_tiles(s.remove(t), lo),
    decreases t - lo,
{
    if lo == t {
        lemma_ascending_tiles_agree(s, s.remove(t), t + 1);
        assert(ascending_tiles(s.remove(t), lo) =~= ascending_tiles(s.remove(t), lo + 1));
    } else {
        lemma_ascending_tiles_lowest(s, lo + 1, t);
        assert(!s.remove(t).contains(lo));
        assert(ascending_tiles(s, lo) =~= ascending_tiles(s, lo + 1));
        assert(ascending_tiles(s.remove(t), lo) =~= ascending_tiles(s.remove(t), lo + 1));
    }
}

/// No tile from `lo` on: nothing.
proof fn lemma_ascending_tiles_none(s: Set<int>, lo: int)
    requires
        0 <= lo,
        forall|i: int| lo <= i < 128 ==> !s.contains(i),
    ensures
        ascending_tiles(s, lo) == Seq::<int>::empty(),
    decreases 128 - lo,
{
    if lo < 128 {
        lemma_ascending_tiles_none(s, lo + 1);
    }
}

/// The ascending tiles from `lo` are strictly increasing and are exactly the
/// tiles of `s` from `lo` below 128, each once.
pub proof fn lemma_ascending_tiles(s: Set<int>, lo: int)
    requires
        0 <= lo,
    ensures
        forall|i: int, j: int|
            0 <= i < j < ascending_tiles(s, lo).len() ==> ascending_tiles(s, lo)[i] < ascending_tiles(s, lo)[j],
        forall|x: int| #[trigger] ascending_tiles(s, lo).contains(x) <==> (s.contains(x) && lo <= x < 128),
    decreases 128 - lo,
{
    if lo < 128 {
        lemma_ascending_tiles(s, lo + 1);
        let head = if s.contains(lo) {
            seq![lo]
        } else {
            Seq::<int>::empty()
        };
        let rest = ascending_tiles(s, lo + 1);
        let a = ascending_tiles(s, lo);
        assert(a == head + rest);
        let hl = head.len() as int;
        assert forall|x: int| #[trigger] a.contains(x) <==> (s.contains(x) && lo <= x < 128) by {
            if a.contains(x) {
                let i = choose|i: int| 0 <= i < a.len() && a[i] == x;
                if i < hl {
                    assert(a[i] == head[i]);
                    assert(head[i] == lo);
                } else {
                    assert(a[i] == rest[i - hl]);
                    assert(rest.contains(x));
                }
            }
            if s.contains(x) && lo <= x < 128 {
                if x == lo {
                    assert(a[0] == head[0]);
                    assert(a.contains(x));
                } else {
                    assert(rest.contains(x));
                    let i = choose|i: int| 0 <= i < rest.len() && rest[i] == x;
                    assert(a[i + hl] == rest[i]);
                    assert(a.contains(x));
                }
            }
        }
        assert forall|i: int, j: int| 0 <= i < j < a.len() implies a[i] < a[j] by {
            assert(a[j] == rest[j - hl]);
            assert(0 <= j - hl < rest.len());
            assert(rest.contains(rest[j - hl]));
            assert(lo + 1 <= rest[j - hl]);
            if i >= hl {
                assert(a[i] == rest[i - hl]);
            } else {
                assert(a[i] == head[i]);
            }
        }
    } else {
        assert forall|x: int| #[trigger] ascending_tiles(s, lo).contains(x) <==> (s.contains(x) && lo <= x < 128) by {}
    }
}

/// Hands out the tiles of a board one by one, lowest index first.
#[derive(Debug)]
pub struct BitBoardTiles {
    remaining_tiles: BitBoard,
}

impl View for BitBoardTiles {
    type V = Set<int>;

    closed spec fn view(&self) -> Set<int> {
        self.remaining_tiles@
    }
}

impl BitBoardTiles {
    pub fn new(remaining_tiles: BitBoard) -> (r: Self)
        ensures
            r@ == remaining_tiles@,
            r@.finite(),
    {
        proof {
            lemma_board_finite(remaining_tiles);
        }
        Self { remaining_tiles }
    }

    /// Removes and returns the lowest remaining tile.
    pub fn next(&mut self) -> (r: Option<TileIndex>)
        ensures
            old(self)@.finite() ==> final(self)@.finite(),
            r is None <==> old(self)@ == Set::<int>::empty(),
            r is None ==> final(self)@ == old(self)@,
            r matches Some(t) ==> {
                &&& t.0 < 128
                &&& old(self)@.contains(t.0 as int)
                &&& forall|j: int| 0 <= j < t.0 ==> !old(self)@.contains(j)
                &&& final(self)@ == old(self)@.remove(t.0 as int)
            },
            r is None ==> ascending_tiles(old(self)@, 0) == Seq::<int>::empty(),
            r matches Some(t) ==> ascending_tiles(old(self)@, 0) == seq![t.0 as int] + ascending_tiles(
                final(self)@,
                0,
            ),
    {
        let ghost before = self.remaining_tiles@;
        let next_tile = self.remaining_tiles.lowest_one();
        if let Some(tile) = next_tile {
            self.remaining_tiles.flip_bit_at_tile_index(tile)
        }
        proof {
            match next_tile {
                Some(t) => lemma_ascending_tiles_lowest(before, 0, t.0 as int),
                None => lemma_ascending_tiles_none(before, 0),
            }
        }
        next_tile
    }
}

} // verus!

verus! {

/// The en-passant data a move from `source` to tile `t` carries: a pawn
/// landing on the tile where `ep` says a double step ends.
pub open spec fn ep_for(
    source: TileIndex,
    is_pawn: bool,
    t: int,
    ep: Option<crate::chess_move::EnPassantData>,
) -> Option<crate::chess_move::EnPassantData> {
    if is_pawn && ep is Some && ep->0.occupied_tile.0 == t {
        Some(
            crate::chess_move::EnPassantData {
                source_tile: source,
                passed_tile: ep->0.passed_tile,
                occupied_tile: TileIndex(t as usize),
            },
        )
    } else {
        None
    }
}

pub open spec fn spec_move(
    source: TileIndex,
    t: int,
    promotion: Option<PieceType>,
    ep: Option<crate::chess_move::EnPassantData>,
) -> Move {
    Move {
        source_tile: source,
        destination_tile: TileIndex(t as usize),
        promotion,
        en_passant_data: ep,
    }
}

/// The moves to tile `t`: one per promotion piece (knight, bishop, rook,
/// queen) when a pawn reaches a promotion tile, otherwise one.
pub open spec fn tile_moves(
    source: TileIndex,
    is_pawn: bool,
    t: int,
    ep: Option<crate::chess_move::EnPassantData>,
    promotable: BitBoard,
) -> Seq<Move> {
    if is_pawn && promotable@.contains(t) {
        seq![
            spec_move(source, t, Some(PieceType::Knight), ep_for(source, is_pawn, t, ep)),
            spec_move(source, t, Some(PieceType::Bishop), None),
            spec_move(source, t, Some(PieceType::Rook), None),
            spec_move(source, t, Some(PieceType::Queen), None),
        ]
    } else {
        seq![spec_move(source, t, None, ep_for(source, is_pawn, t, ep))]
    }
}

/// The moves to the tiles of `tiles` from `lo` on, in increasing tile order.
pub open spec fn moves_to_tiles(
    source: TileIndex,
    is_pawn: bool,
    tiles: Set<int>,
    ep: Option<crate::chess_move::EnPassantData>,
    promotable: BitBoard,
    lo: int,
) -> Seq<Move>
    decreases 128 - lo,
{
    if lo < 0 || lo >= 128 {
        Seq::empty()
    } else {
        (if tiles.contains(lo) {
            tile_moves(source, is_pawn, lo, ep, promotable)
        } else {
            Seq::empty()
        }) + moves_to_tiles(source, is_pawn, tiles, ep, promotable, lo + 1)
    }
}

proof fn lemma_moves_to_tiles_agree(
    source: TileIndex,
    is_pawn: bool,
    a: Set<int>,
    b: Set<int>,
    ep: Option<crate::chess_move::EnPassantData>,
    promotable: BitBoard,
    lo: int,
)
    requires
        0 <= lo,
        forall|i: int| lo <= i < 128 ==> a.contains(i) == b.contains(i),
    ensures
        moves_to_tiles(source, is_pawn, a, ep, promotable, lo) == moves_to_tiles(
            source,
            is_pawn,
            b,
            ep,
            promotable,
            lo,
        ),
    decreases 128 - lo,
{
    if lo < 128 {
        lemma_moves_to_tiles_agree(source, is_pawn, a, b, ep, promotable, lo + 1);
    }
}

/// Splitting off the lowest tile.
pub proof fn lemma_moves_to_tiles_lowest(
    source: TileIndex,
    is_pawn: bool,
    tiles: Set<int>,
    ep: Option<crate::chess_move::EnPassantData>,
    promotable: BitBoard,
    lo: int,
    t: int,
)
    requires
        0 <= lo <= t < 128,
        tiles.contains(t),
        forall|i: int| lo <= i < t ==> !tiles.contains(i),
    ensures
        moves_to_tiles(source, is_pawn, tiles, ep, promotable, lo) == tile_moves(
            source,
            is_pawn,
            t,
            ep,
            promotable,
        ) + moves_to_tiles(source, is_pawn, tiles.remove(t), ep, promotable, lo),
    decreases t - lo,
{
    if lo == t {
        lemma_moves_to_tiles_agree(source, is_pawn, tiles, tiles.remove(t), ep, promotable, t + 1);
        assert(moves_to_tiles(source, is_pawn, tiles.remove(t), ep, promotable, lo) =~= moves_to_tiles(
            source,
            is_pawn,
            tiles.remove(t),
            ep,
            promotable,
            lo + 1,
        ));
    } else {
        lemma_moves_to_tiles_lowest(source, is_pawn, tiles, ep, promotable, lo + 1, t);
        assert(!tiles.remove(t).contains(lo));
        assert(moves_to_tiles(source, is_pawn, tiles, ep, promotable, lo) =~= moves_to_tiles(
            source,
            is_pawn,
            tiles,
            ep,
            promotable,
            lo + 1,
        ));
        assert(moves_to_tiles(source, is_pawn, tiles.remove(t), ep, promotable, lo) =~= moves_to_tiles(
            source,
            is_pawn,
            tiles.remove(t),
            ep,
            promotable,
            lo + 1,
        ));
    }
}

/// No tile from `lo` on: no move.
pub proof fn lemma_moves_to_tiles_none(
    source: TileIndex,
    is_pawn: bool,
    tiles: Set<int>,
    ep: Option<crate::chess_move::EnPassantData>,
    promotable: BitBoard,
    lo: int,
)
    requires
        0 <= lo,
        forall|i: int| lo <= i < 128 ==> !tiles.contains(i),
    ensures
        moves_to_tiles(source, is_pawn, tiles, ep, promotable, lo) == Seq::<Move>::empty(),
    decreases 128 - lo,
{
    if lo < 128 {
        lemma_moves_to_tiles_none(source, is_pawn, tiles, ep, promotable, lo + 1);
    }
}

/// The promotions still to come for a pawn move to `t`, after `counter` of
/// bishop, rook and queen have been handed out.
pub open spec fn promotion_tail(source: TileIndex, t: TileIndex, counter: u32) -> Seq<Move> {
    let b = spec_move(source, t.0 as int, Some(PieceType::Bishop), None);
    let r = spec_move(source, t.0 as int, Some(PieceType::Rook), None);
    let q = spec_move(source, t.0 as int, Some(PieceType::Queen), None);
    if counter == 0 {
        seq![b, r, q]
    } else if counter == 1 {
        seq![r, q]
    } else {
        seq![q]
    }
}

/// Hands out the moves of one piece: one per target tile in increasing order,
/// four (knight, bishop, rook, queen) for a pawn reaching a promotion tile.
#[derive(Debug)]
pub struct BitBoardMoves {
    source_tile: TileIndex,
    is_pawn: bool,
    remaining_moves: BitBoardTiles,
    next_ep_data: Option<crate::chess_move::EnPassantData>,
    promotable_tiles: BitBoard,
    current_promotion_tile: Option<TileIndex>,
    current_promotion_counter: u32,
}

impl BitBoardMoves {
    pub closed spec fn wf(&self) -> bool {
        &&& self.remaining_moves@.finite()
        &&& self.current_promotion_tile is Some ==> self.current_promotion_counter <= 2
        &&& self.current_promotion_tile is None ==> self.current_promotion_counter == 0
    }

    /// The moves still to be handed out, in order.
    pub closed spec fn pending(&self) -> Seq<Move> {
        let rest = moves_to_tiles(
            self.source_tile,
            self.is_pawn,
            self.remaining_moves@,
            self.next_ep_data,
            self.promotable_tiles,
            0,
        );
        match self.current_promotion_tile {
            Some(t) => promotion_tail(self.source_tile, t, self.current_promotion_counter) + rest,
            None => rest,
        }
    }

    pub fn new(
        source_tile: TileIndex,
        is_pawn: bool,
        remaining_move_board: BitBoard,
        next_ep_data: Option<crate::chess_move::EnPassantData>,
        promotable_tiles: BitBoard,
    ) -> (r: BitBoardMoves)
        ensures
            r.wf(),
            r.pending() == moves_to_tiles(
                source_tile,
                is_pawn,
                remaining_move_board@,
                next_ep_data,
                promotable_tiles,
                0,
            ),
    {
        BitBoardMoves {
            source_tile,
            is_pawn,
            remaining_moves: BitBoardTiles::new(remaining_move_board),
            next_ep_data,
            promotable_tiles,
            current_promotion_tile: None,
            current_promotion_counter: 0,
        }
    }

    /// The next move, if any.
    pub fn next(&mut self) -> (r: Option<Move>)
        requires
            old(self).wf(),
        ensures
            final(self).wf(),
            old(self).pending().len() == 0 ==> r is None,
            old(self).pending().len() == 0 ==> final(self).pending() == old(self).pending(),
            old(self).pending().len() > 0 ==> r == Some(old(self).pending()[0]),
            old(self).pending().len() > 0 ==> final(self).pending() == old(self).pending().drop_first(),
    {
        let mut promotion = None;
        let mut en_passant_tile = None;
        if let Some(destination_tile) = self.current_promotion_tile {
            self.current_promotion_counter = self.current_promotion_counter + 1;
            let promotion = if self.current_promotion_counter == 1 {
                Some(PieceType::Bishop)
            } else if self.current_promotion_counter == 2 {
                Some(PieceType::Rook)
            } else {
                self.current_promotion_tile = None;
                self.current_promotion_counter = 0;
                Some(PieceType::Queen)
            };
            let r = Some(Move::new(self.source_tile, destination_tile, promotion, en_passant_tile));
            proof {
                let old_tail = promotion_tail(
                    old(self).source_tile,
                    destination_tile,
                    old(self).current_promotion_counter,
                );
                assert(old(self).pending() == old_tail + moves_to_tiles(
                    self.source_tile,
                    self.is_pawn,
                    self.remaining_moves@,
                    self.next_ep_data,
                    self.promotable_tiles,
                    0,
                ));
                assert(self.pending() =~= old(self).pending().drop_first());
            }
            r
        } else {
            let ghost rem = self.remaining_moves@;
            if let Some(destination_tile) = self.remaining_moves.next() {
                if self.is_pawn {
                    if let Some(data) = &self.next_ep_data {
                        if data.occupied_tile == destination_tile {
                            en_passant_tile = Some(data.passed_tile)
                        }
                    }
                    if self.promotable_tiles.get_bit_at_tile(&destination_tile) {
                        self.current_promotion_tile = Some(destination_tile);
                        promotion = Some(PieceType::Knight);
                    }
                }
                let r = Some(Move::new(self.source_tile, destination_tile, promotion, en_passant_tile));
                proof {
                    let t = destination_tile.0 as int;
                    lemma_moves_to_tiles_lowest(
                        self.source_tile,
                        self.is_pawn,
                        rem,
                        self.next_ep_data,
                        self.promotable_tiles,
                        0,
                        t,
                    );
                    assert(TileIndex(t as usize) == destination_tile);
                    let rest = moves_to_tiles(
                        self.source_tile,
                        self.is_pawn,
                        rem.remove(t),
                        self.next_ep_data,
                        self.promotable_tiles,
                        0,
                    );
                    assert(self.remaining_moves@ == rem.remove(t));
                    let tm = tile_moves(self.source_tile, self.is_pawn, t, self.next_ep_data, self.promotable_tiles);
                    assert(old(self).pending() == tm + rest);
                    if self.is_pawn && self.promotable_tiles@.contains(t) {
                        assert(self.current_promotion_tile == Some(destination_tile));
                        assert(self.current_promotion_counter == 0);
                        assert(promotion_tail(self.source_tile, destination_tile, 0) =~= tm.drop_first());
                        assert(self.pending() == promotion_tail(self.source_tile, destination_tile, 0) + rest);
                    } else {
                        assert(self.current_promotion_tile is None);
                        assert(self.pending() == rest);
                    }
                    assert(self.pending() =~= old(self).pending().drop_first());
                }
                r
            } else {
                proof {
                    lemma_moves_to_tiles_none(
                        self.source_tile,
                        self.is_pawn,
                        rem,
                        self.next_ep_data,
                        self.promotable_tiles,
                        0,
                    );
                }
                None
            }
        }
    }
}

} // verus!
