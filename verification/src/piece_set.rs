use vstd::prelude::*;

use crate::bit_board::BitBoard;
use crate::constants::NUM_PIECE_TYPES;
use crate::graph_boards::graph_board::TileIndex;

verus! {

#[derive(Debug, PartialEq, Eq, Clone, Copy, Structural)]
pub enum Color {
    White,
    Black,
}

impl Color {
    pub open spec fn spec_idx(self) -> int {
        match self {
            Color::White => 0,
            Color::Black => 1,
        }
    }

    pub open spec fn spec_opponent(self) -> Color {
        match self {
            Color::White => Color::Black,
            Color::Black => Color::White,
        }
    }

    /// 0 for white, 1 for black.
    pub fn as_idx(&self) -> (r: usize)
        ensures
            r == self.spec_idx(),
    {
        match self {
            Color::White => 0,
            Color::Black => 1,
        }
    }

    pub fn opponent(&self) -> (r: Self)
        ensures
            r == self.spec_opponent(),
    {
        match self {
            Color::White => Color::Black,
            Color::Black => Color::White,
        }
    }

    /// The colour's name, as it is displayed.
    pub fn name(&self) -> (r: &'static str)
        ensures
            *self == Color::White ==> r@ == "White"@,
            *self == Color::Black ==> r@ == "Black"@,
    {
        match self {
            Color::White => "White",
            Color::Black => "Black",
        }
    }
}

#[derive(Debug, Clone, PartialEq, Eq, Copy, Structural)]
pub enum PieceType {
    King,
    Queen,
    Rook,
    Bishop,
    Knight,
    Pawn,
}

/// The piece type stored at index `idx` of a `PieceSet`; every index from 5 on
/// reads as a pawn.
pub open spec fn piece_type_of(idx: int) -> PieceType {
    if idx == 0 {
        PieceType::King
    } else if idx == 1 {
        PieceType::Queen
    } else if idx == 2 {
        PieceType::Rook
    } else if idx == 3 {
        PieceType::Bishop
    } else if idx == 4 {
        PieceType::Knight
    } else {
        PieceType::Pawn
    }
}

/// The piece type that a FEN letter names, whatever its case; any other
/// character reads as a pawn.
pub open spec fn piece_type_of_char(c: char) -> PieceType {
    if c == 'k' || c == 'K' {
        PieceType::King
    } else if c == 'q' || c == 'Q' {
        PieceType::Queen
    } else if c == 'r' || c == 'R' {
        PieceType::Rook
    } else if c == 'b' || c == 'B' {
        PieceType::Bishop
    } else if c == 'n' || c == 'N' {
        PieceType::Knight
    } else {
        PieceType::Pawn
    }
}

impl PieceType {
    pub open spec fn spec_idx(self) -> int {
        match self {
            PieceType::King => 0,
            PieceType::Queen => 1,
            PieceType::Rook => 2,
            PieceType::Bishop => 3,
            PieceType::Knight => 4,
            PieceType::Pawn => 5,
        }
    }

    pub open spec fn spec_char(self) -> char {
        match self {
            PieceType::King => '♔',
            PieceType::Queen => '♕',
            PieceType::Rook => '♖',
            PieceType::Bishop => '♗',
            PieceType::Knight => '♘',
            PieceType::Pawn => '♙',
        }
    }

    pub fn from_idx(idx: usize) -> (r: Self)
        ensures
            r == piece_type_of(idx as int),
    {
        match idx {
            0 => PieceType::King,
            1 => PieceType::Queen,
            2 => PieceType::Rook,
            3 => PieceType::Bishop,
            4 => PieceType::Knight,
            _ => PieceType::Pawn,
        }
    }

    pub fn from_char(character: char) -> (r: Self)
        ensures
            r == piece_type_of_char(character),
    {
        match character {
            'k' | 'K' => PieceType::King,
            'q' | 'Q' => PieceType::Queen,
            'r' | 'R' => PieceType::Rook,
            'b' | 'B' => PieceType::Bishop,
            'n' | 'N' => PieceType::Knight,
            _ => PieceType::Pawn,
        }
    }

    pub fn as_idx(&self) -> (r: usize)
        ensures
            r == self.spec_idx(),
    {
        match self {
            PieceType::King => 0,
            PieceType::Queen => 1,
            PieceType::Rook => 2,
            PieceType::Bishop => 3,
            PieceType::Knight => 4,
            PieceType::Pawn => 5,
        }
    }

    /// The chess symbol of the piece.
    pub fn as_char(&self) -> (r: char)
        ensures
            r == self.spec_char(),
    {
        match self {
            PieceType::King => '♔',
            PieceType::Queen => '♕',
            PieceType::Rook => '♖',
            PieceType::Bishop => '♗',
            PieceType::Knight => '♘',
            PieceType::Pawn => '♙',
        }
    }

    /// The chess symbol of the piece for a player. The symbols have no
    /// lower-case form, so both colours get the same one.
    pub fn as_colored_char(&self, color: Color) -> (r: char)
        ensures
            r == self.spec_char(),
    {
        match color {
            Color::White => self.as_char(),
            Color::Black => self.as_char(),
        }
    }
}

#[derive(Debug, Clone, PartialEq, Eq, Copy, Structural)]
pub struct Piece {
    pub piece: PieceType,
    pub color: Color,
}

impl Piece {
    pub open spec fn spec_display(self) -> char {
        let upper = match self.piece {
            PieceType::King => 'K',
            PieceType::Queen => 'Q',
            PieceType::Rook => 'R',
            PieceType::Bishop => 'B',
            PieceType::Knight => 'N',
            PieceType::Pawn => 'P',
        };
        let lower = match self.piece {
            PieceType::King => 'k',
            PieceType::Queen => 'q',
            PieceType::Rook => 'r',
            PieceType::Bishop => 'b',
            PieceType::Knight => 'n',
            PieceType::Pawn => 'p',
        };
        if self.color == Color::Black {
            lower
        } else {
            upper
        }
    }

    /// The FEN letter of the piece: upper case for white, lower case for black.
    pub fn display(&self) -> (r: char)
        ensures
            r == self.spec_display(),
    {
        let black = self.color == Color::Black;
        match self.piece {
            PieceType::King => if black { 'k' } else { 'K' },
            PieceType::Queen => if black { 'q' } else { 'Q' },
            PieceType::Rook => if black { 'r' } else { 'R' },
            PieceType::Bishop => if black { 'b' } else { 'B' },
            PieceType::Knight => if black { 'n' } else { 'N' },
            PieceType::Pawn => if black { 'p' } else { 'P' },
        }
    }
}

/// The first board, from index `k` on, that holds tile `t`.
pub open spec fn first_board_from(boards: Seq<BitBoard>, t: int, k: int) -> Option<int>
    decreases 6 - k,
{
    if k >= 6 || k < 0 {
        None
    } else if boards[k]@.contains(t) {
        Some(k)
    } else {
        first_board_from(boards, t, k + 1)
    }
}

pub proof fn lemma_first_board_from(boards: Seq<BitBoard>, t: int, k: int)
    requires
        0 <= k,
    ensures
        first_board_from(boards, t, k) matches Some(j) ==> {
            &&& k <= j < 6
            &&& boards[j]@.contains(t)
            &&& forall|i: int| k <= i < j ==> !boards[i]@.contains(t)
        },
        first_board_from(boards, t, k) is None ==> forall|i: int|
            k <= i < 6 ==> !boards[i]@.contains(t),
    decreases 6 - k,
{
    if k < 6 && !boards[k]@.contains(t) {
        lemma_first_board_from(boards, t, k + 1);
    }
}

/// The pieces of one player: one board per piece type, and the union of them.
#[derive(Debug, Clone, Copy)]
pub struct PieceSet {
    pub piece_boards: [BitBoard; NUM_PIECE_TYPES],
    pub occupied: BitBoard,
}

impl PieceSet {
    /// The index of the first piece board that holds tile `t`.
    pub open spec fn piece_index_at(&self, t: int) -> Option<int> {
        first_board_from(self.piece_boards@, t, 0)
    }

    /// The union of the piece boards.
    pub open spec fn union_of_boards(&self) -> Set<int> {
        self.piece_boards@[0]@.union(self.piece_boards@[1]@).union(self.piece_boards@[2]@).union(
            self.piece_boards@[3]@,
        ).union(self.piece_boards@[4]@).union(self.piece_boards@[5]@)
    }

    /// `occupied` is the union of the piece boards.
    pub open spec fn occupied_consistent(&self) -> bool {
        self.occupied@ == self.union_of_boards()
    }

    pub fn empty() -> (r: Self)
        ensures
            forall|k: int| 0 <= k < 6 ==> #[trigger] r.piece_boards@[k] == BitBoard(0),
            r.occupied == BitBoard(0),
    {
        Self { piece_boards: [BitBoard::empty();NUM_PIECE_TYPES], occupied: BitBoard::empty() }
    }

    /// Recomputes `occupied` as the union of the piece boards.
    pub fn update_occupied(&mut self)
        ensures
            final(self).piece_boards == old(self).piece_boards,
            final(self).occupied_consistent(),
    {
        let mut occupied = BitBoard::empty();
        let mut k: usize = 0;
        while k < NUM_PIECE_TYPES
            invariant
                k <= 6,
                occupied@ == (if k == 0 {
                    Set::<int>::empty()
                } else {
                    Set::new(|t: int| exists|j: int| 0 <= j < k && self.piece_boards@[j]@.contains(t))
                }),
            decreases 6 - k,
        {
            proof {
                crate::bit_board::lemma_board_ops(occupied, self.piece_boards@[k as int]);
            }
            occupied = occupied | self.piece_boards[k];
            proof {
                assert(occupied@ =~= Set::new(|t: int| exists|j: int| 0 <= j < k + 1 && self.piece_boards@[j]@.contains(t)));
            }
            k = k + 1;
        }
        self.occupied = occupied;
        proof {
            assert(self.occupied@ =~= self.union_of_boards());
        }
    }
}

/// The board `b` with tile `t` flipped.
pub open spec fn flipped(b: BitBoard, t: int) -> BitBoard {
    BitBoard(b.0 ^ crate::bits::single_bit(t))
}

/// The boards after the piece on `s` moves to `d`: its board flipped at
/// both tiles.
pub open spec fn moved(boards: Seq<BitBoard>, s: int, d: int) -> Seq<BitBoard> {
    let k = first_board_from(boards, s, 0)->0;
    boards.update(k, flipped(flipped(boards[k], s), d))
}

/// The boards after the piece on `t` is taken off.
pub open spec fn captured(boards: Seq<BitBoard>, t: int) -> Seq<BitBoard> {
    let k = first_board_from(boards, t, 0)->0;
    boards.update(k, flipped(boards[k], t))
}

/// The boards after the pawn on `t` becomes a piece of type `target`.
pub open spec fn promoted(boards: Seq<BitBoard>, t: int, target: PieceType) -> Seq<BitBoard> {
    let mid = boards.update(5, flipped(boards[5], t));
    mid.update(target.spec_idx(), flipped(mid[target.spec_idx()], t))
}

/// The boards after a piece of type `piece` is put on `t`.
pub open spec fn returned(boards: Seq<BitBoard>, t: int, piece: PieceType) -> Seq<BitBoard> {
    boards.update(piece.spec_idx(), flipped(boards[piece.spec_idx()], t))
}

/// The boards after the piece on `t` becomes a pawn again.
pub open spec fn demoted(boards: Seq<BitBoard>, t: int) -> Seq<BitBoard> {
    let mid = captured(boards, t);
    mid.update(5, flipped(mid[5], t))
}

impl PieceSet {
    /// The type of the piece on the tile, found by looking through the boards
    /// in piece-type order.
    pub fn get_piece_at(&self, tile_index: &TileIndex) -> (r: Option<PieceType>)
        requires
            tile_index.0 < 128,
        ensures
            r == match self.piece_index_at(tile_index.0 as int) {
                Some(k) => Some(piece_type_of(k)),
                None => None,
            },
    {
        let mut piece_idx: usize = 0;
        while piece_idx < NUM_PIECE_TYPES
            invariant
                piece_idx <= 6,
                tile_index.0 < 128,
                self.piece_index_at(tile_index.0 as int) == first_board_from(
                    self.piece_boards@,
                    tile_index.0 as int,
                    piece_idx as int,
                ),
            decreases 6 - piece_idx,
        {
            if self.piece_boards[piece_idx].get_bit_at_tile(tile_index) == true {
                return Some(PieceType::from_idx(piece_idx));
            }
            piece_idx = piece_idx + 1;
        }
        return None;
    }

    /// The board of one piece type, to be changed in place.
    pub fn get_bitboard_for_piece(&mut self, piece_type: &PieceType) -> (r: &mut BitBoard)
        ensures
            *r == old(self).piece_boards@[piece_type.spec_idx()],
            final(self).piece_boards@ == old(self).piece_boards@.update(
                piece_type.spec_idx(),
                *final(r),
            ),
            final(self).occupied == old(self).occupied,
    {
        &mut self.piece_boards[piece_type.as_idx()]
    }

    fn flip_tile_on_board(&mut self, k: usize, tile: TileIndex)
        requires
            k < 6,
            tile.0 < 128,
        ensures
            final(self).piece_boards@ == old(self).piece_boards@.update(
                k as int,
                flipped(old(self).piece_boards@[k as int], tile.0 as int),
            ),
            final(self).occupied == old(self).occupied,
    {
        let mut board = self.piece_boards[k];
        board.flip_bit_at_tile_index(tile);
        self.piece_boards[k] = board;
    }

    /// Moves the piece on `source_tile` to `destination_tile` on its board;
    /// `occupied` is left as it was.
    pub fn move_piece(&mut self, source_tile: TileIndex, destination_tile: TileIndex)
        requires
            source_tile.0 < 128,
            destination_tile.0 < 128,
            old(self).piece_index_at(source_tile.0 as int) is Some,
        ensures
            final(self).piece_boards@ == moved(old(self).piece_boards@, source_tile.0 as int, destination_tile.0 as int),
            final(self).occupied == old(self).occupied,
    {
        proof {
            lemma_first_board_from(self.piece_boards@, source_tile.0 as int, 0);
        }
        let piece_type = self.get_piece_at(&source_tile).unwrap();
        let k = piece_type.as_idx();
        self.flip_tile_on_board(k, source_tile);
        self.flip_tile_on_board(k, destination_tile);
    }

    /// Removes the piece on the tile from its board.
    pub fn capture_piece(&mut self, capture_tile: TileIndex)
        requires
            capture_tile.0 < 128,
            old(self).piece_index_at(capture_tile.0 as int) is Some,
        ensures
            final(self).piece_boards@ == captured(old(self).piece_boards@, capture_tile.0 as int),
            final(self).occupied == old(self).occupied,
    {
        proof {
            lemma_first_board_from(self.piece_boards@, capture_tile.0 as int, 0);
        }
        let piece_type = self.get_piece_at(&capture_tile).unwrap();
        self.flip_tile_on_board(piece_type.as_idx(), capture_tile);
    }

    /// Turns the pawn that has just reached the tile into `promotion_target`.
    pub fn promote_piece(&mut self, promotion_tile: TileIndex, promotion_target: &PieceType)
        requires
            promotion_tile.0 < 128,
        ensures
            final(self).piece_boards@ == promoted(old(self).piece_boards@, promotion_tile.0 as int, *promotion_target),
            final(self).occupied == old(self).occupied,
    {
        self.flip_tile_on_board(PieceType::Pawn.as_idx(), promotion_tile);
        self.flip_tile_on_board(promotion_target.as_idx(), promotion_tile);
    }

    /// Puts a piece of the given type back on the tile; the inverse of
    /// `capture_piece`.
    pub fn return_piece(&mut self, captured_tile: TileIndex, captured_piece: &PieceType)
        requires
            captured_tile.0 < 128,
        ensures
            final(self).piece_boards@ == returned(old(self).piece_boards@, captured_tile.0 as int, *captured_piece),
            final(self).occupied == old(self).occupied,
    {
        self.flip_tile_on_board(captured_piece.as_idx(), captured_tile);
    }

    /// Turns the piece on the tile back into a pawn; the inverse of
    /// `promote_piece`.
    pub fn demote_piece(&mut self, demotion_tile: TileIndex)
        requires
            demotion_tile.0 < 128,
            old(self).piece_index_at(demotion_tile.0 as int) is Some,
        ensures
            final(self).piece_boards@ == demoted(old(self).piece_boards@, demotion_tile.0 as int),
            final(self).occupied == old(self).occupied,
    {
        proof {
            lemma_first_board_from(self.piece_boards@, demotion_tile.0 as int, 0);
        }
        let piece_type = self.get_piece_at(&demotion_tile).unwrap();
        self.flip_tile_on_board(piece_type.as_idx(), demotion_tile);
        self.flip_tile_on_board(PieceType::Pawn.as_idx(), demotion_tile);
    }
}

/// Flipping a tile twice changes nothing.
pub proof fn lemma_flip_twice(b: BitBoard, t: int)
    ensures
        flipped(flipped(b, t), t) == b,
{
    let x = b.0;
    let m = crate::bits::single_bit(t);
    assert((x ^ m) ^ m == x) by (bit_vector);
}

/// Flipping a tile toggles that tile and no other.
pub proof fn lemma_flip_contains(b: BitBoard, t: int, i: int)
    requires
        0 <= t < 128,
    ensures
        flipped(b, t)@.contains(i) == if i == t {
            !b@.contains(i)
        } else {
            b@.contains(i)
        },
{
    crate::bits::lemma_has_bit_flip(b.0, t, i);
}

/// The first board holding `t` is the one board that holds it.
proof fn lemma_only_board(boards: Seq<BitBoard>, t: int, k: int)
    requires
        0 <= k < 6,
        boards[k]@.contains(t),
        forall|i: int| 0 <= i < 6 && i != k ==> !boards[i]@.contains(t),
    ensures
        first_board_from(boards, t, 0) == Some(k),
{
    lemma_first_board_from(boards, t, 0);
}

/// Putting a captured piece of the type that was taken back on its tile
/// restores the boards.
pub proof fn lemma_return_undoes_capture(boards: Seq<BitBoard>, t: int)
    requires
        0 <= t < 128,
        boards.len() == 6,
        first_board_from(boards, t, 0) is Some,
    ensures
        returned(captured(boards, t), t, piece_type_of(first_board_from(boards, t, 0)->0)) == boards,
{
    lemma_first_board_from(boards, t, 0);
    let k = first_board_from(boards, t, 0)->0;
    assert(piece_type_of(k).spec_idx() == k);
    lemma_flip_twice(boards[k], t);
    assert(returned(captured(boards, t), t, piece_type_of(k)) =~= boards);
}

/// Turning a freshly promoted pawn back into a pawn restores the boards
/// (a "promotion" to a pawn changes nothing, and neither does its undoing).
pub proof fn lemma_demote_undoes_promote(boards: Seq<BitBoard>, t: int, target: PieceType)
    requires
        0 <= t < 128,
        boards.len() == 6,
        boards[5]@.contains(t),
        forall|i: int| 0 <= i < 5 ==> !boards[i]@.contains(t),
    ensures
        demoted(promoted(boards, t, target), t) == boards,
{
    let q = target.spec_idx();
    let p = promoted(boards, t, target);
    if target == PieceType::Pawn {
        lemma_flip_twice(boards[5], t);
        assert(p =~= boards);
        lemma_only_board(boards, t, 5);
        assert(demoted(boards, t) =~= boards);
    } else {
        lemma_flip_contains(boards[5], t, t);
        lemma_flip_contains(boards[q], t, t);
        assert(p[q]@.contains(t));
        assert forall|i: int| 0 <= i < 6 && i != q implies !p[i]@.contains(t) by {
            if i == 5 {
                lemma_flip_contains(boards[5], t, t);
            }
        }
        lemma_only_board(p, t, q);
        lemma_flip_twice(boards[q], t);
        lemma_flip_twice(boards[5], t);
        assert(demoted(p, t) =~= boards);
    }
}

/// Moving a piece to an empty tile and back restores the boards.
pub proof fn lemma_move_back_undoes_move(boards: Seq<BitBoard>, s: int, d: int)
    requires
        0 <= s < 128,
        0 <= d < 128,
        s != d,
        boards.len() == 6,
        first_board_from(boards, s, 0) matches Some(k) && forall|i: int|
            0 <= i < 6 && i != k ==> !boards[i]@.contains(s),
        forall|i: int| 0 <= i < 6 ==> !boards[i]@.contains(d),
    ensures
        moved(moved(boards, s, d), d, s) == boards,
{
    lemma_first_board_from(boards, s, 0);
    let k = first_board_from(boards, s, 0)->0;
    let m = moved(boards, s, d);
    lemma_flip_contains(boards[k], s, d);
    lemma_flip_contains(flipped(boards[k], s), d, d);
    assert(m[k]@.contains(d));
    lemma_only_board(m, d, k);
    lemma_flip_twice(flipped(boards[k], s), d);
    lemma_flip_twice(boards[k], s);
    assert(flipped(flipped(flipped(flipped(boards[k], s), d), d), s) == boards[k]);
    assert(moved(m, d, s) =~= boards);
}

} // verus!
