use vstd::prelude::*;

use crate::bit_board::BitBoard;
use crate::chess_move::{EnPassantData, Move};
use crate::graph_boards::graph_board::TileIndex;
use crate::piece_set::{Color, PieceSet, PieceType, first_board_from, flipped, piece_type_of, lemma_flip_twice, lemma_flip_contains};
use crate::text::{str_chars, string_from_chars};
use vstd::string::StringExecFns;
use crate::fen::{
    decimal_chars, decimal_value, fields, is_digit, is_unsigned_number, number_value, parse_number,
    push_decimal, split_fields, lemma_fields_len, lemma_fields_three, lemma_decimal_chars,
};
use crate::bit_board::{lemma_view_ext, lemma_board_finite};
use crate::piece_set::lemma_first_board_from;
use crate::piece_set::{Piece, piece_type_of_char};
use crate::zobrist::ZobristTable;
use crate::move_generator::MoveTables;

verus! {

#[derive(Debug, PartialEq, Eq, Clone, Copy, Structural)]
pub enum GameOver {
    Checkmate,
    Draw,
}

impl GameOver {
    /// The message shown at the end of the game.
    pub fn display(&self, winning_player: Color) -> (r: String)
        ensures
            *self == GameOver::Checkmate ==> r@ == (if winning_player == Color::White {
                "White"@
            } else {
                "Black"@
            }) + " wins!"@,
            *self == GameOver::Draw ==> r@ == "Draw!"@,
    {
        match self {
            GameOver::Checkmate => String::from_str(winning_player.name()).concat(" wins!"),
            GameOver::Draw => "Draw!".to_owned(),
        }
    }
}

/// What a move changed beyond the pieces, kept so that it can be undone.
#[derive(Debug, PartialEq, Eq, Clone, Copy, Structural)]
pub struct PositionRecord {
    pub en_passant_data: Option<EnPassantData>,
    pub captured_piece: Option<PieceType>,
    pub zobrist: u64,
    pub fifty_move_counter: u32,
}

pub open spec fn default_record(initial_zobrist: u64) -> PositionRecord {
    PositionRecord {
        en_passant_data: None,
        captured_piece: None,
        zobrist: initial_zobrist,
        fifty_move_counter: 0,
    }
}

impl PositionRecord {
    /// The record of a position that no move led to.
    pub fn default(initial_zobrist: u64) -> (r: PositionRecord)
        ensures
            r == default_record(initial_zobrist),
    {
        PositionRecord {
            en_passant_data: None,
            captured_piece: None,
            zobrist: initial_zobrist,
            fifty_move_counter: 0,
        }
    }
}

/// Board `k` of `boards` with tile `t` flipped.
pub open spec fn flip_at(boards: Seq<BitBoard>, k: int, t: int) -> Seq<BitBoard> {
    boards.update(k, flipped(boards[k], t))
}

/// A game state: whose turn it is, both players' pieces, the record of the
/// last move and the records of the moves before it (the last one on top).
#[derive(Debug)]
pub struct Position {
    pub active_player: Color,
    pub pieces: [PieceSet; 2],
    pub record: PositionRecord,
    pub history: Vec<PositionRecord>,
    pub zobrist_table: ZobristTable,
}

/// The mathematical content of a position: whose turn it is, each player's
/// piece boards (indexed by colour, then piece type), the record, the
/// history and the hash keys.
pub struct PositionModel {
    pub active_player: Color,
    pub boards: Seq<Seq<BitBoard>>,
    pub record: PositionRecord,
    pub history: Seq<PositionRecord>,
    pub keys: ZobristTable,
}

/// The union of a player's piece boards.
pub open spec fn union_of(boards: Seq<BitBoard>) -> Set<int> {
    Set::new(|t: int| exists|k: int| 0 <= k < 6 && #[trigger] boards[k]@.contains(t))
}

impl Position {
    pub open spec fn model(&self) -> PositionModel {
        PositionModel {
            active_player: self.active_player,
            boards: seq![self.pieces@[0].piece_boards@, self.pieces@[1].piece_boards@],
            record: self.record,
            history: self.history@,
            keys: self.zobrist_table,
        }
    }

    pub open spec fn boards_of(&self, c: int) -> Seq<BitBoard> {
        self.pieces@[c].piece_boards@
    }

    /// Each player's boards are disjoint and summed up by `occupied`; no tile
    /// holds pieces of both players; the hash keys are in place.
    pub open spec fn wf(&self) -> bool {
        &&& self.model().wf()
        &&& forall|c: int| 0 <= c < 2 ==> (#[trigger] self.pieces@[c]).occupied_consistent()
    }
}

impl PositionModel {
    pub open spec fn player(&self) -> int {
        self.active_player.spec_idx()
    }

    pub open spec fn opponent(&self) -> int {
        self.active_player.spec_opponent().spec_idx()
    }

    pub open spec fn boards_of(&self, c: int) -> Seq<BitBoard> {
        self.boards[c]
    }

    /// The index of the first of player `c`'s boards that holds tile `t`.
    pub open spec fn piece_index_at(&self, c: int, t: int) -> Option<int> {
        first_board_from(self.boards[c], t, 0)
    }

    /// Each player's boards are disjoint, no tile holds pieces of both
    /// players, and the hash keys are in place.
    pub open spec fn wf(&self) -> bool {
        &&& self.keys.wf()
        &&& self.boards.len() == 2
        &&& forall|c: int| 0 <= c < 2 ==> (#[trigger] self.boards[c]).len() == 6
        &&& forall|c: int, a: int, b: int, t: int|
            0 <= c < 2 && 0 <= a < 6 && 0 <= b < 6 && a != b && #[trigger] self.boards[c][a]@.contains(t)
                ==> !#[trigger] self.boards[c][b]@.contains(t)
        &&& forall|t: int| !(union_of(self.boards[0]).contains(t) && #[trigger] union_of(self.boards[1]).contains(t))
    }

    // ---- the effect of a move ----
    /// The board index of the moving piece.
    pub open spec fn moving_index(&self, m: Move) -> int {
        self.piece_index_at(self.player(), m.source_tile.0 as int)->0
    }

    /// The mover's boards after the move (and promotion).
    pub open spec fn mover_boards_after(&self, m: Move) -> Seq<BitBoard> {
        let k = self.moving_index(m);
        let s = m.source_tile.0 as int;
        let d = m.destination_tile.0 as int;
        let moved = flip_at(flip_at(self.boards_of(self.player()), k, s), k, d);
        match m.promotion {
            Some(q) => flip_at(flip_at(moved, 5, d), q.spec_idx(), d),
            None => moved,
        }
    }

    /// The board index of the opponent's piece on the destination, if any.
    pub open spec fn capture_index(&self, m: Move) -> Option<int> {
        first_board_from(self.boards_of(self.opponent()), m.destination_tile.0 as int, 0)
    }

    /// A pawn moves onto the tile passed over by the last double step.
    pub open spec fn is_en_passant_capture(&self, m: Move) -> bool {
        &&& self.moving_index(m) == 5
        &&& self.record.en_passant_data matches Some(e)
        &&& e.passed_tile == m.destination_tile
    }

    pub open spec fn opponent_after_capture(&self, m: Move) -> Seq<BitBoard> {
        let d = m.destination_tile.0 as int;
        match self.capture_index(m) {
            Some(j) => flip_at(self.boards_of(self.opponent()), j, d),
            None => self.boards_of(self.opponent()),
        }
    }

    /// The opponent's boards after the move (and an en-passant capture).
    pub open spec fn opponent_boards_after(&self, m: Move) -> Seq<BitBoard> {
        let o1 = self.opponent_after_capture(m);
        if self.is_en_passant_capture(m) {
            let e = self.record.en_passant_data->0;
            let occ = e.occupied_tile.0 as int;
            flip_at(o1, first_board_from(o1, occ, 0)->0, occ)
        } else {
            o1
        }
    }

    pub open spec fn captured_after(&self, m: Move) -> Option<PieceType> {
        if self.is_en_passant_capture(m) {
            Some(PieceType::Pawn)
        } else {
            match self.capture_index(m) {
                Some(j) => Some(piece_type_of(j)),
                None => None,
            }
        }
    }

    /// The fifty-move counter restarts after a capture or a pawn move.
    pub open spec fn fifty_after(&self, m: Move) -> u32 {
        if self.capture_index(m) is Some || self.moving_index(m) == 5 {
            0
        } else {
            (self.record.fifty_move_counter + 1) as u32
        }
    }

    /// The hash after the move: the keys of the moved, captured and promoted
    /// pieces and of the en-passant tiles toggled.
    pub open spec fn zobrist_after(&self, m: Move) -> u64 {
        let t = self.keys;
        let p = self.player();
        let o = self.opponent();
        let k = self.moving_index(m);
        let s = m.source_tile.0 as int;
        let d = m.destination_tile.0 as int;
        let z0 = self.record.zobrist ^ t.spec_piece_key(p, k, s) ^ t.spec_piece_key(p, k, d);
        let z1 = match self.capture_index(m) {
            Some(j) => z0 ^ t.spec_piece_key(o, j, d),
            None => z0,
        };
        let z2 = match m.promotion {
            Some(q) => z1 ^ t.spec_piece_key(p, 5, d) ^ t.spec_piece_key(p, q.spec_idx(), d),
            None => z1,
        };
        let z3 = match self.record.en_passant_data {
            Some(e) => z2 ^ t.en_passant@[e.source_tile.0 as int],
            None => z2,
        };
        match m.en_passant_data {
            Some(_) => z3 ^ t.en_passant@[s],
            None => z3,
        }
    }

    /// The conditions under which `make_legal_move` runs to its end.
    pub open spec fn make_ok(&self, m: Move) -> bool {
        &&& self.keys.wf()
        &&& self.boards.len() == 2
        &&& m.source_tile.0 < 128
        &&& m.destination_tile.0 < 128
        &&& self.piece_index_at(self.player(), m.source_tile.0 as int) is Some
        &&& (self.record.en_passant_data matches Some(e) ==> e.source_tile.0 < 128)
        &&& (self.is_en_passant_capture(m) ==> {
            let occ = self.record.en_passant_data->0.occupied_tile.0 as int;
            &&& occ < 128
            &&& first_board_from(self.opponent_after_capture(m), occ, 0) is Some
        })
        &&& self.record.fifty_move_counter < u32::MAX
    }

    /// The position after the move.
    pub open spec fn after_make(&self, m: Move) -> PositionModel {
        let p = self.player();
        PositionModel {
            active_player: self.active_player.spec_opponent(),
            boards: if p == 0 {
                seq![self.mover_boards_after(m), self.opponent_boards_after(m)]
            } else {
                seq![self.opponent_boards_after(m), self.mover_boards_after(m)]
            },
            record: PositionRecord {
                en_passant_data: m.en_passant_data,
                captured_piece: self.captured_after(m),
                zobrist: self.zobrist_after(m),
                fifty_move_counter: self.fifty_after(m),
            },
            history: self.history.push(self.record),
            keys: self.keys,
        }
    }
}

impl Position {
    /// `after` is `before` with the move made.
    pub open spec fn made(before: Position, after: Position, m: Move) -> bool {
        &&& after.model() == before.model().after_make(m)
        &&& after.pieces@[0].occupied_consistent()
        &&& after.pieces@[1].occupied_consistent()
    }

    /// Plays the move: moves the piece, captures (also en passant),
    /// promotes, records what changed and passes the turn.
    pub fn make_legal_move(&mut self, legal_move: &Move)
        requires
            old(self).model().make_ok(*legal_move),
        ensures
            Self::made(*old(self), *final(self), *legal_move),
    {
        let player_idx = self.active_player.as_idx();
        let opponent_idx = self.active_player.opponent().as_idx();
        let ghost before = self.model();
        let mut new_zobrist = self.record.zobrist;
        let source_tile = legal_move.source_tile;
        let destination_tile = legal_move.destination_tile;
        let mut fifty_move_counter = self.record.fifty_move_counter + 1;

        proof {
            crate::piece_set::lemma_first_board_from(self.boards_of(player_idx as int), source_tile.0 as int, 0);
            crate::piece_set::lemma_first_board_from(self.boards_of(opponent_idx as int), destination_tile.0 as int, 0);
        }
        let moving_piece = self.pieces[player_idx].get_piece_at(&source_tile).unwrap();
        let k = moving_piece.as_idx();
        new_zobrist = new_zobrist ^ self.zobrist_table.piece_key(player_idx, k, source_tile.index());
        new_zobrist = new_zobrist ^ self.zobrist_table.piece_key(player_idx, k, destination_tile.index());
        self.pieces[player_idx].move_piece(source_tile, destination_tile);

        let mut target_piece = self.pieces[opponent_idx].get_piece_at(&destination_tile);
        if let Some(captured_piece) = target_piece {
            fifty_move_counter = 0;
            new_zobrist = new_zobrist ^ self.zobrist_table.piece_key(opponent_idx, captured_piece.as_idx(), destination_tile.index());
            self.pieces[opponent_idx].capture_piece(destination_tile);
        }
        if let Some(promotion_target) = &legal_move.promotion {
            new_zobrist = new_zobrist ^ self.zobrist_table.piece_key(player_idx, PieceType::Pawn.as_idx(), destination_tile.index());
            new_zobrist = new_zobrist ^ self.zobrist_table.piece_key(player_idx, promotion_target.as_idx(), destination_tile.index());
            self.pieces[player_idx].promote_piece(destination_tile, promotion_target);
        }
        if moving_piece == PieceType::Pawn {
            fifty_move_counter = 0;
            if let Some(en_passant_data) = &self.record.en_passant_data {
                if destination_tile == en_passant_data.passed_tile {
                    target_piece = Some(PieceType::Pawn);
                    self.pieces[opponent_idx].capture_piece(en_passant_data.occupied_tile);
                }
            }
        }
        if let Some(prev_en_passant_data) = &self.record.en_passant_data {
            new_zobrist = new_zobrist ^ self.zobrist_table.en_passant[prev_en_passant_data.source_tile.index()];
        }
        if legal_move.en_passant_data.is_some() {
            new_zobrist = new_zobrist ^ self.zobrist_table.en_passant[source_tile.index()];
        }
        let previous = self.record;
        self.history.push(previous);
        self.record = PositionRecord {
            en_passant_data: legal_move.en_passant_data,
            captured_piece: target_piece,
            zobrist: new_zobrist,
            fifty_move_counter: fifty_move_counter,
        };
        self.pieces[player_idx].update_occupied();
        self.pieces[opponent_idx].update_occupied();
        self.active_player = self.active_player.opponent();
        proof {
            let m = *legal_move;
            assert(self.active_player == before.active_player.spec_opponent());
            assert(self.boards_of(before.player()) =~= before.mover_boards_after(m));
            assert(self.boards_of(before.opponent()) =~= before.opponent_boards_after(m));
            assert(self.record.captured_piece == before.captured_after(m));
            assert(self.record.zobrist == before.zobrist_after(m));
            assert(self.record.fifty_move_counter == before.fifty_after(m));
            assert(self.history@ =~= before.history.push(before.record));
            assert(self.model().boards =~= before.after_make(m).boards);
            assert(self.model() == before.after_make(m));
        }
    }
}

impl PositionModel {
    /// The record on top of the history, or a fresh record when there is none.
    pub open spec fn previous_record(&self) -> PositionRecord {
        if self.history.len() > 0 {
            self.history.last()
        } else {
            default_record(0)
        }
    }

    /// The board index of the piece standing on the destination of the move
    /// being taken back (the player who made it is the one not to move).
    pub open spec fn unmove_index(&self, m: Move) -> int {
        first_board_from(self.boards_of(self.opponent()), m.destination_tile.0 as int, 0)->0
    }

    pub open spec fn mover_after_move_back(&self, m: Move) -> Seq<BitBoard> {
        let k = self.unmove_index(m);
        let s = m.source_tile.0 as int;
        let d = m.destination_tile.0 as int;
        flip_at(flip_at(self.boards_of(self.opponent()), k, d), k, s)
    }

    /// The boards of the player who made the move, after it is taken back.
    pub open spec fn mover_boards_unmade(&self, m: Move) -> Seq<BitBoard> {
        let b1 = self.mover_after_move_back(m);
        let s = m.source_tile.0 as int;
        match m.promotion {
            Some(_) => {
                let k2 = first_board_from(b1, s, 0)->0;
                flip_at(flip_at(b1, k2, s), 5, s)
            },
            None => b1,
        }
    }

    pub open spec fn opponent_after_return(&self, m: Move) -> Seq<BitBoard> {
        let d = m.destination_tile.0 as int;
        match self.record.captured_piece {
            Some(pt) => flip_at(self.boards_of(self.player()), pt.spec_idx(), d),
            None => self.boards_of(self.player()),
        }
    }

    /// The move taken back captured a pawn and went to the tile the double
    /// step before it passed over.
    pub open spec fn undoes_en_passant(&self, m: Move) -> bool {
        &&& self.record.captured_piece == Some(PieceType::Pawn)
        &&& self.previous_record().en_passant_data matches Some(e)
        &&& e.passed_tile == m.destination_tile
    }

    /// The boards of the player to move, after the move is taken back.
    pub open spec fn opponent_boards_unmade(&self, m: Move) -> Seq<BitBoard> {
        let o1 = self.opponent_after_return(m);
        let d = m.destination_tile.0 as int;
        if self.undoes_en_passant(m) {
            let j = first_board_from(o1, d, 0)->0;
            let e = self.previous_record().en_passant_data->0;
            flip_at(flip_at(o1, j, d), 5, e.occupied_tile.0 as int)
        } else {
            o1
        }
    }

    /// The conditions under which `unmake_legal_move` runs to its end.
    pub open spec fn unmake_ok(&self, m: Move) -> bool {
        &&& m.source_tile.0 < 128
        &&& m.destination_tile.0 < 128
        &&& first_board_from(self.boards_of(self.opponent()), m.destination_tile.0 as int, 0) is Some
        &&& (m.promotion is Some ==> first_board_from(
            self.mover_after_move_back(m),
            m.source_tile.0 as int,
            0,
        ) is Some)
        &&& (self.undoes_en_passant(m) ==> {
            &&& first_board_from(self.opponent_after_return(m), m.destination_tile.0 as int, 0) is Some
            &&& self.previous_record().en_passant_data->0.occupied_tile.0 < 128
        })
    }

    /// The position with the move taken back.
    pub open spec fn after_unmake(&self, m: Move) -> PositionModel {
        let p = self.opponent();
        PositionModel {
            active_player: self.active_player.spec_opponent(),
            boards: if p == 0 {
                seq![self.mover_boards_unmade(m), self.opponent_boards_unmade(m)]
            } else {
                seq![self.opponent_boards_unmade(m), self.mover_boards_unmade(m)]
            },
            record: self.previous_record(),
            history: if self.history.len() > 0 {
                self.history.drop_last()
            } else {
                self.history
            },
            keys: self.keys,
        }
    }
}

impl Position {
    /// `after` is `before` with the move taken back.
    pub open spec fn unmade(before: Position, after: Position, m: Move) -> bool {
        &&& after.model() == before.model().after_unmake(m)
        &&& after.pieces@[0].occupied_consistent()
        &&& after.pieces@[1].occupied_consistent()
    }

    /// Takes back the move that led to this position.
    pub fn unmake_legal_move(&mut self, legal_move: &Move)
        requires
            old(self).model().unmake_ok(*legal_move),
        ensures
            Self::unmade(*old(self), *final(self), *legal_move),
    {
        let ghost before = self.model();
        self.active_player = self.active_player.opponent();
        let player_idx = self.active_player.as_idx();
        let opponent_idx = self.active_player.opponent().as_idx();
        let source_tile = legal_move.source_tile;
        let destination_tile = legal_move.destination_tile;

        proof {
            crate::piece_set::lemma_first_board_from(self.boards_of(player_idx as int), destination_tile.0 as int, 0);
        }
        self.pieces[player_idx].move_piece(destination_tile, source_tile);
        assert(self.boards_of(player_idx as int) =~= before.mover_after_move_back(*legal_move));

        let captured_piece = self.record.captured_piece;
        if let Some(piece_type) = captured_piece {
            self.pieces[opponent_idx].return_piece(destination_tile, &piece_type);
        }
        if legal_move.promotion.is_some() {
            proof {
                crate::piece_set::lemma_first_board_from(self.boards_of(player_idx as int), source_tile.0 as int, 0);
            }
            self.pieces[player_idx].demote_piece(source_tile);
        }
        if self.history.len() > 0 {
            self.record = self.history.pop().unwrap();
        } else {
            self.record = PositionRecord::default(0);
        }
        if captured_piece == Some(PieceType::Pawn) {
            if let Some(en_passant_data) = self.record.en_passant_data {
                if destination_tile == en_passant_data.passed_tile {
                    proof {
                        crate::piece_set::lemma_first_board_from(self.boards_of(opponent_idx as int), destination_tile.0 as int, 0);
                    }
                    self.pieces[opponent_idx].capture_piece(destination_tile);
                    self.pieces[opponent_idx].return_piece(en_passant_data.occupied_tile, &PieceType::Pawn);
                }
            }
        }
        self.pieces[player_idx].update_occupied();
        self.pieces[opponent_idx].update_occupied();
        proof {
            let m = *legal_move;
            assert(self.boards_of(before.opponent()) =~= before.mover_boards_unmade(m));
            assert(self.boards_of(before.player()) =~= before.opponent_boards_unmade(m));
            assert(self.history@ =~= (if before.history.len() > 0 {
                before.history.drop_last()
            } else {
                before.history
            }));
            assert(self.model().boards =~= before.after_unmake(m).boards);
            assert(self.model() == before.after_unmake(m));
        }
    }
}

impl PositionModel {
    /// The conditions of a move under which taking it back restores the
    /// position: the mover's piece leaves its tile for a tile the mover does
    /// not hold, only pawns promote (and not to pawns), the tile passed over
    /// by a double step is empty, and an en-passant capture takes a pawn.
    pub open spec fn move_sane(&self, m: Move) -> bool {
        &&& self.make_ok(m)
        &&& !union_of(self.boards[self.player()]).contains(m.destination_tile.0 as int)
        &&& m.source_tile != m.destination_tile
        &&& (m.promotion matches Some(q) ==> self.moving_index(m) == 5 && q.spec_idx() != 5)
        &&& (self.record.en_passant_data matches Some(e) ==> !union_of(self.boards[self.opponent()]).contains(
            e.passed_tile.0 as int,
        ))
        &&& (self.is_en_passant_capture(m) ==> first_board_from(
            self.boards_of(self.opponent()),
            self.record.en_passant_data->0.occupied_tile.0 as int,
            0,
        ) == Some(5int))
    }
}

/// Facts about the mover's boards around a sane move: where the moved piece
/// stands after the move, and that taking it back gives the boards back.
proof fn lemma_mover_round_trip(before: PositionModel, m: Move)
    requires
        before.wf(),
        before.move_sane(m),
    ensures
        ({
            let after = before.after_make(m);
            &&& first_board_from(after.boards_of(after.opponent()), m.destination_tile.0 as int, 0) is Some
            &&& (m.promotion is Some ==> first_board_from(
                after.mover_after_move_back(m),
                m.source_tile.0 as int,
                0,
            ) is Some)
            &&& after.mover_boards_unmade(m) == before.boards_of(before.player())
        }),
{
    let after = before.after_make(m);
    let p = before.player();
    let o = before.opponent();
    let s = m.source_tile.0 as int;
    let d = m.destination_tile.0 as int;
    let bb = before.boards_of(p);
    let k = before.moving_index(m);
    assert(after.opponent() == p);
    crate::piece_set::lemma_first_board_from(bb, s, 0);
    assert(0 <= k < 6 && bb[k]@.contains(s));
    // the mover's boards hold `s` only on board `k`, and `d` nowhere
    assert forall|i: int| 0 <= i < 6 && i != k implies !(#[trigger] bb[i])@.contains(s) by {
        assert(before.boards[p][k]@.contains(s));
    }
    assert forall|i: int| 0 <= i < 6 implies !(#[trigger] bb[i])@.contains(d) by {
        assert(!union_of(before.boards[p]).contains(d));
    }
    let ap = after.boards_of(p);
    let moved = flip_at(flip_at(bb, k, s), k, d);
    lemma_flip_contains(bb[k], s, d);
    lemma_flip_contains(flipped(bb[k], s), d, d);
    lemma_flip_contains(bb[k], s, s);
    lemma_flip_contains(flipped(bb[k], s), d, s);
    match m.promotion {
        None => {
            assert(ap == moved);
            assert(s != d);
            assert(!flipped(bb[k], s)@.contains(d));
            assert(ap[k] == flipped(flipped(bb[k], s), d));
            assert(ap[k]@.contains(d));
            assert forall|i: int| 0 <= i < 6 && i != k implies !(#[trigger] ap[i])@.contains(d) by {}
            crate::piece_set::lemma_first_board_from(ap, d, 0);
            assert(first_board_from(ap, d, 0) == Some(k));
            let b1 = after.mover_after_move_back(m);
            lemma_flip_twice(flipped(bb[k], s), d);
            lemma_flip_twice(bb[k], s);
            assert(b1 =~= bb);
        },
        Some(q) => {
            let qi = q.spec_idx();
            assert(k == 5 && qi != 5 && 0 <= qi < 6);
            lemma_flip_twice(flipped(bb[5], s), d);
            assert(ap[5] == flipped(bb[5], s));
            assert(ap[qi] == flipped(bb[qi], d));
            lemma_flip_contains(bb[qi], d, d);
            lemma_flip_contains(bb[5], s, d);
            assert forall|i: int| 0 <= i < 6 && i != qi implies !(#[trigger] ap[i])@.contains(d) by {}
            crate::piece_set::lemma_first_board_from(ap, d, 0);
            assert(first_board_from(ap, d, 0) == Some(qi));
            let b1 = after.mover_after_move_back(m);
            lemma_flip_twice(bb[qi], d);
            assert(b1[qi] == flipped(bb[qi], s));
            assert(b1[5] == flipped(bb[5], s));
            lemma_flip_contains(bb[qi], s, s);
            lemma_flip_contains(bb[5], s, s);
            assert forall|i: int| 0 <= i < 6 && i != qi implies !(#[trigger] b1[i])@.contains(s) by {}
            crate::piece_set::lemma_first_board_from(b1, s, 0);
            assert(first_board_from(b1, s, 0) == Some(qi));
            lemma_flip_twice(bb[qi], s);
            lemma_flip_twice(bb[5], s);
            assert(after.mover_boards_unmade(m) =~= bb);
        },
    }
}

/// Facts about the opponent's boards around a sane move: taking the move back
/// gives them back.
proof fn lemma_opponent_round_trip(before: PositionModel, m: Move)
    requires
        before.wf(),
        before.move_sane(m),
    ensures
        ({
            let after = before.after_make(m);
            &&& (after.undoes_en_passant(m) ==> {
                &&& first_board_from(after.opponent_after_return(m), m.destination_tile.0 as int, 0) is Some
                &&& after.previous_record().en_passant_data->0.occupied_tile.0 < 128
            })
            &&& after.opponent_boards_unmade(m) == before.boards_of(before.opponent())
        }),
{
    let after = before.after_make(m);
    let p = before.player();
    let o = before.opponent();
    let d = m.destination_tile.0 as int;
    let ob = before.boards_of(o);
    assert(after.player() == o);
    assert(after.previous_record() == before.record);
    let ao = after.boards_of(o);
    crate::piece_set::lemma_first_board_from(ob, d, 0);
    if before.is_en_passant_capture(m) {
        let e = before.record.en_passant_data->0;
        let occ = e.occupied_tile.0 as int;
        assert(!union_of(before.boards[o]).contains(d));
        assert forall|i: int| 0 <= i < 6 implies !(#[trigger] ob[i])@.contains(d) by {}
        assert(before.capture_index(m) is None);
        crate::piece_set::lemma_first_board_from(ob, occ, 0);
        assert(ob[5]@.contains(occ));
        assert(occ != d);
        assert(ao == flip_at(ob, 5, occ));
        assert(after.record.captured_piece == Some(PieceType::Pawn));
        let o1 = after.opponent_after_return(m);
        assert(o1 == flip_at(ao, 5, d));
        lemma_flip_contains(ob[5], occ, d);
        lemma_flip_contains(flipped(ob[5], occ), d, d);
        assert(o1[5] == flipped(flipped(ob[5], occ), d));
        assert(!flipped(ob[5], occ)@.contains(d));
        assert(o1[5]@.contains(d));
        assert forall|i: int| 0 <= i < 6 && i != 5 implies !(#[trigger] o1[i])@.contains(d) by {
            assert(o1[i] == ob[i]);
        }
        crate::piece_set::lemma_first_board_from(o1, d, 0);
        assert(first_board_from(o1, d, 0) == Some(5int));
        lemma_flip_twice(flipped(ob[5], occ), d);
        lemma_flip_twice(ob[5], occ);
        assert(after.opponent_boards_unmade(m) =~= ob);
    } else {
        match before.capture_index(m) {
            Some(j) => {
                assert(0 <= j < 6);
                assert(ao == flip_at(ob, j, d));
                assert(piece_type_of(j).spec_idx() == j);
                lemma_flip_twice(ob[j], d);
                assert(after.opponent_after_return(m) =~= ob);
                if after.undoes_en_passant(m) {
                    assert(ob[j]@.contains(d));
                    assert(union_of(before.boards[o]).contains(d));
                }
            },
            None => {
                assert(after.opponent_after_return(m) =~= ob);
            },
        }
    }
}

/// Taking a move back restores the position it was made in: the turn, both
/// players' boards, the record, the history and the hash keys.
pub proof fn lemma_unmake_undoes_make(before: PositionModel, m: Move)
    requires
        before.wf(),
        before.move_sane(m),
    ensures
        before.after_make(m).unmake_ok(m),
        before.after_make(m).after_unmake(m) == before,
{
    lemma_mover_round_trip(before, m);
    lemma_opponent_round_trip(before, m);
    let after = before.after_make(m);
    let p = before.player();
    let o = before.opponent();
    assert(after.opponent() == p);
    assert(after.player() == o);
    let restored = after.after_unmake(m);
    assert(restored.boards =~= before.boards);
    assert(restored.history =~= before.history);
}

/// Two positions whose occupied boards are consistent with the same piece
/// boards have the same occupied boards.
pub proof fn lemma_occupied_determined(a: Position, b: Position)
    requires
        forall|c: int| 0 <= c < 2 ==> (#[trigger] a.pieces@[c]).occupied_consistent(),
        forall|c: int| 0 <= c < 2 ==> (#[trigger] b.pieces@[c]).occupied_consistent(),
        a.model().boards == b.model().boards,
    ensures
        forall|c: int| 0 <= c < 2 ==> #[trigger] a.pieces@[c].occupied == b.pieces@[c].occupied,
{
    assert forall|c: int| 0 <= c < 2 implies #[trigger] a.pieces@[c].occupied == b.pieces@[c].occupied by {
        assert(a.model().boards[c] == b.model().boards[c]);
        assert(a.pieces@[c].union_of_boards() =~= b.pieces@[c].union_of_boards());
        crate::bit_board::lemma_view_ext(a.pieces@[c].occupied, b.pieces@[c].occupied);
    }
}

/// A player's occupied board is the union, in the sense of `union_of`, of
/// their piece boards.
pub proof fn lemma_union_of_boards(ps: PieceSet)
    ensures
        ps.union_of_boards() == union_of(ps.piece_boards@),
{
    assert(ps.union_of_boards() =~= union_of(ps.piece_boards@)) by {
        assert forall|t: int| ps.union_of_boards().contains(t) implies union_of(ps.piece_boards@).contains(t) by {
            if ps.piece_boards@[0]@.contains(t) {
                assert(ps.piece_boards@[0]@.contains(t));
            } else if ps.piece_boards@[1]@.contains(t) {
                assert(ps.piece_boards@[1]@.contains(t));
            } else if ps.piece_boards@[2]@.contains(t) {
                assert(ps.piece_boards@[2]@.contains(t));
            } else if ps.piece_boards@[3]@.contains(t) {
                assert(ps.piece_boards@[3]@.contains(t));
            } else if ps.piece_boards@[4]@.contains(t) {
                assert(ps.piece_boards@[4]@.contains(t));
            } else {
                assert(ps.piece_boards@[5]@.contains(t));
            }
        }
        assert forall|t: int| union_of(ps.piece_boards@).contains(t) implies ps.union_of_boards().contains(t) by {
            let k = choose|k: int| 0 <= k < 6 && #[trigger] ps.piece_boards@[k]@.contains(t);
            if k == 0 {} else if k == 1 {} else if k == 2 {} else if k == 3 {} else if k == 4 {} else {}
        }
    }
}

/// The state of reading the piece placement of a position string: the next
/// tile, the digits read since the last piece, and the boards so far.
pub struct FenScan {
    pub counter: int,
    pub digits: Seq<char>,
    pub boards: Seq<Seq<BitBoard>>,
}

pub open spec fn empty_boards() -> Seq<Seq<BitBoard>> {
    seq![Seq::new(6, |i: int| BitBoard(0)), Seq::new(6, |i: int| BitBoard(0))]
}

pub open spec fn is_ascii_upper(c: char) -> bool {
    'A' <= c && c <= 'Z'
}

/// The tile the next piece goes on: the counter, advanced by the digits
/// read since the last piece.
pub open spec fn scan_tile(st: FenScan) -> int {
    if st.digits.len() > 0 {
        st.counter + decimal_value(st.digits)
    } else {
        st.counter
    }
}

/// Reads a piece placement: a run of digits skips that many tiles; any other
/// character puts a piece (an upper-case letter a white one, anything else a
/// black one; the letter names the type, other characters read as pawns) on
/// the next tile, flipping that tile on its board.
pub open spec fn fen_scan(chars: Seq<char>) -> FenScan
    decreases chars.len(),
{
    if chars.len() == 0 {
        FenScan { counter: 0, digits: Seq::empty(), boards: empty_boards() }
    } else {
        let st = fen_scan(chars.drop_last());
        let c = chars.last();
        if is_digit(c) {
            FenScan { counter: st.counter, digits: st.digits.push(c), boards: st.boards }
        } else {
            let tile = scan_tile(st);
            let color = if is_ascii_upper(c) {
                0int
            } else {
                1int
            };
            let k = piece_type_of_char(c).spec_idx();
            FenScan {
                counter: tile + 1,
                digits: Seq::empty(),
                boards: st.boards.update(color, flip_at(st.boards[color], k, tile)),
            }
        }
    }
}

/// The tile counter and the pending digits after reading a placement, as
/// `fen_scan` keeps them.
pub open spec fn scan_marks(chars: Seq<char>) -> (int, Seq<char>)
    decreases chars.len(),
{
    if chars.len() == 0 {
        (0, Seq::empty())
    } else {
        let (counter, digits) = scan_marks(chars.drop_last());
        let c = chars.last();
        if is_digit(c) {
            (counter, digits.push(c))
        } else {
            (marks_tile(counter, digits) + 1, Seq::empty())
        }
    }
}

/// The tile the next piece goes on, from the counter and pending digits.
pub open spec fn marks_tile(counter: int, digits: Seq<char>) -> int {
    if digits.len() > 0 {
        counter + decimal_value(digits)
    } else {
        counter
    }
}

proof fn lemma_scan_marks(chars: Seq<char>)
    ensures
        fen_scan(chars).counter == scan_marks(chars).0,
        fen_scan(chars).digits == scan_marks(chars).1,
    decreases chars.len(),
{
    if chars.len() > 0 {
        lemma_scan_marks(chars.drop_last());
    }
}

/// Every piece of the placement lands on a tile below 128.
pub open spec fn fen_scan_ok(chars: Seq<char>) -> bool
    decreases chars.len(),
{
    chars.len() == 0 || (fen_scan_ok(chars.drop_last()) && (!is_digit(chars.last()) ==> marks_tile(
        scan_marks(chars.drop_last()).0,
        scan_marks(chars.drop_last()).1,
    ) < 128))
}

/// The record read from `source,passed,occupied` tile numbers.
pub open spec fn ep_record(chars: Seq<char>) -> PositionRecord {
    let f = fields(chars, ',');
    PositionRecord {
        en_passant_data: Some(
            EnPassantData {
                source_tile: TileIndex(number_value(f[0]) as usize),
                passed_tile: TileIndex(number_value(f[1]) as usize),
                occupied_tile: TileIndex(number_value(f[2]) as usize),
            },
        ),
        captured_piece: None,
        zobrist: 0,
        fifty_move_counter: 0,
    }
}

/// The string holds at least three comma-separated tile numbers.
pub open spec fn ep_record_ok(chars: Seq<char>) -> bool {
    let f = fields(chars, ',');
    &&& f.len() >= 3
    &&& forall|i: int| 0 <= i < 3 ==> is_unsigned_number(#[trigger] f[i]) && number_value(f[i]) <= usize::MAX
}

/// A position string: at least three space-separated fields, an ASCII piece
/// placement whose pieces land below tile 128, and either `-` or readable
/// en-passant data as third field.
pub open spec fn position_string_ok(chars: Seq<char>) -> bool {
    let f = fields(chars, ' ');
    &&& f.len() >= 3
    &&& forall|i: int| 0 <= i < f[0].len() ==> (#[trigger] f[0][i]) < 128 as char
    &&& fen_scan_ok(f[0])
    &&& (f[2] != seq!['-'] ==> ep_record_ok(f[2]))
}

/// The model read from a position string.
pub open spec fn position_from_chars(chars: Seq<char>, keys: ZobristTable) -> PositionModel {
    let f = fields(chars, ' ');
    PositionModel {
        active_player: if f[1] == seq!['w'] {
            Color::White
        } else {
            Color::Black
        },
        boards: fen_scan(f[0]).boards,
        record: if f[2] == seq!['-'] {
            default_record(0)
        } else {
            ep_record(f[2])
        },
        history: Seq::empty(),
        keys,
    }
}

fn is_single_char(v: &Vec<char>, c: char) -> (r: bool)
    ensures
        r == (v@ == seq![c]),
{
    if v.len() == 1 && v[0] == c {
        assert(v@ =~= seq![c]);
        true
    } else {
        false
    }
}

impl PositionRecord {
    /// Reads en-passant data from `source,passed,occupied` tile numbers.
    pub fn from_string(fen: String) -> (r: PositionRecord)
        requires
            ep_record_ok(fen@),
        ensures
            r == ep_record(fen@),
    {
        let chars = str_chars(fen.as_str());
        let parts = split_fields(&chars, ',');
        proof {
            assert(parts@[0]@ == fields(fen@, ',')[0]);
            assert(parts@[1]@ == fields(fen@, ',')[1]);
            assert(parts@[2]@ == fields(fen@, ',')[2]);
        }
        let en_passant_data = Some(
            EnPassantData {
                source_tile: TileIndex::new(parse_number(&parts[0])),
                passed_tile: TileIndex::new(parse_number(&parts[1])),
                occupied_tile: TileIndex::new(parse_number(&parts[2])),
            },
        );
        PositionRecord {
            en_passant_data,
            captured_piece: None,
            zobrist: 0,
            fifty_move_counter: 0,
        }
    }
}

impl Position {
    /// Reads a position string `<pieces> <player> <en passant>`: the
    /// placement tile by tile, `w` for white to move (anything else for
    /// black), and `-` or `source,passed,occupied` tile numbers.
    pub fn from_string(fen: String) -> (r: Self)
        requires
            position_string_ok(fen@),
        ensures
            r.model() == position_from_chars(fen@, r.zobrist_table),
            r.zobrist_table.wf(),
            r.zobrist_table.is_generated(),
            r.occupied_ok(),
    {
        let chars = str_chars(fen.as_str());
        let components = split_fields(&chars, ' ');
        let ghost f = fields(fen@, ' ');
        let board_chars = &components[0];
        proof {
            assert(board_chars@ == f[0]);
        }
        let mut pieces = [PieceSet::empty(), PieceSet::empty()];
        let mut tile_counter: usize = 0;
        let mut skip_tiles: Vec<char> = Vec::new();
        let mut i: usize = 0;
        proof {
            assert(pieces@[0].piece_boards@ =~= empty_boards()[0]);
            assert(pieces@[1].piece_boards@ =~= empty_boards()[1]);
        }
        while i < board_chars.len()
            invariant
                i <= board_chars@.len(),
                board_chars@ == f[0],
                fen_scan_ok(f[0]),
                forall|k: int| 0 <= k < board_chars@.len() ==> (#[trigger] board_chars@[k]) < 128 as char,
                fen_scan(f[0].take(i as int)).counter == tile_counter,
                fen_scan(f[0].take(i as int)).digits == skip_tiles@,
                fen_scan(f[0].take(i as int)).boards[0] == pieces@[0].piece_boards@,
                fen_scan(f[0].take(i as int)).boards[1] == pieces@[1].piece_boards@,
                fen_scan(f[0].take(i as int)).boards.len() == 2,
                tile_counter <= 128,
                forall|k: int| 0 <= k < skip_tiles@.len() ==> is_digit(#[trigger] skip_tiles@[k]),
            decreases board_chars@.len() - i,
        {
            let symbol = board_chars[i];
            let ghost pre = f[0].take(i as int);
            proof {
                assert(f[0].take(i as int + 1).drop_last() =~= pre);
                lemma_fen_scan_ok_prefix(f[0], i as int + 1);
                lemma_scan_marks(pre);
            }
            if '0' <= symbol && symbol <= '9' {
                skip_tiles.push(symbol);
            } else {
                if skip_tiles.len() > 0 {
                    proof {
                        assert(crate::fen::unsigned_digits(skip_tiles@) == skip_tiles@);
                    }
                    tile_counter = tile_counter + parse_number(&skip_tiles);
                    skip_tiles = Vec::new();
                }
                let tile_index = TileIndex::new(tile_counter);
                let color_idx: usize = if 'A' <= symbol && symbol <= 'Z' {
                    0
                } else {
                    1
                };
                let k = PieceType::from_char(symbol).as_idx();
                let mut board = pieces[color_idx].piece_boards[k];
                board.flip_bit_at_tile_index(tile_index);
                pieces[color_idx].piece_boards[k] = board;
                tile_counter = tile_counter + 1;
            }
            proof {
                let st = fen_scan(f[0].take(i as int + 1));
                assert(st.boards[0] =~= pieces@[0].piece_boards@);
                assert(st.boards[1] =~= pieces@[1].piece_boards@);
                assert(st.digits =~= skip_tiles@);
            }
            i = i + 1;
        }
        proof {
            assert(f[0].take(board_chars@.len() as int) =~= f[0]);
        }
        pieces[0].update_occupied();
        pieces[1].update_occupied();
        let active_player = if is_single_char(&components[1], 'w') {
            Color::White
        } else {
            Color::Black
        };
        let record = if is_single_char(&components[2], '-') {
            PositionRecord::default(0)
        } else {
            proof {
                assert(components@[2]@ == f[2]);
            }
            PositionRecord::from_string(string_from_chars(components[2].clone()))
        };
        let zobrist_table = ZobristTable::generate();
        let r = Self { active_player, pieces, record, history: Vec::new(), zobrist_table };
        proof {
            assert(r.model().boards =~= fen_scan(f[0]).boards);
            assert(r.history@ =~= Seq::<PositionRecord>::empty());
        }
        r
    }
}

proof fn lemma_fen_scan_ok_prefix(chars: Seq<char>, n: int)
    requires
        0 <= n <= chars.len(),
        fen_scan_ok(chars),
    ensures
        fen_scan_ok(chars.take(n)),
    decreases chars.len() - n,
{
    if n < chars.len() {
        lemma_fen_scan_ok_prefix(chars, n + 1);
        assert(chars.take(n + 1).drop_last() =~= chars.take(n));
    } else {
        assert(chars.take(n) =~= chars);
    }
}


impl PositionModel {
    /// The piece on tile `t`: white's if white has one there, else black's.
    pub open spec fn occupant(&self, t: int) -> Option<Piece> {
        match self.piece_index_at(0, t) {
            Some(k) => Some(Piece { piece: piece_type_of(k), color: Color::White }),
            None => match self.piece_index_at(1, t) {
                Some(k) => Some(Piece { piece: piece_type_of(k), color: Color::Black }),
                None => None,
            },
        }
    }

    /// The piece placement of tiles below `t` as written so far, and the
    /// number of empty tiles since the last piece (not yet written).
    pub open spec fn placement(&self, t: int) -> (Seq<char>, nat)
        decreases t,
    {
        if t <= 0 {
            (Seq::empty(), 0)
        } else {
            let (out, empty) = self.placement(t - 1);
            match self.occupant(t - 1) {
                Some(p) => (
                    out + (if empty > 0 {
                        decimal_chars(empty)
                    } else {
                        Seq::empty()
                    }) + seq![p.spec_display()],
                    0,
                ),
                None => (out, empty + 1),
            }
        }
    }

    /// The position string: the placement (the empty tiles after the last
    /// piece are not written), `w` or `b`, and `-` or the passed and the
    /// occupied tile of the last double step.
    pub open spec fn position_chars(&self) -> Seq<char> {
        self.placement(128).0 + seq![' '] + seq![
            if self.active_player == Color::White {
                'w'
            } else {
                'b'
            },
        ] + seq![' '] + match self.record.en_passant_data {
            Some(d) => decimal_chars(d.passed_tile.0 as nat) + seq![','] + decimal_chars(d.occupied_tile.0 as nat),
            None => seq!['-'],
        }
    }

    /// The hash of the pieces on the tiles below `t`: the XOR of their keys.
    pub open spec fn pieces_hash(&self, t: int) -> u64
        decreases t,
    {
        if t <= 0 {
            0
        } else {
            let prev = self.pieces_hash(t - 1);
            match self.occupant(t - 1) {
                Some(p) => prev ^ self.keys.spec_piece_key(p.color.spec_idx(), p.piece.spec_idx(), t - 1),
                None => prev,
            }
        }
    }

    /// The hash of the position computed from scratch: the pieces, the tile
    /// passed by the last double step, and the side to move.
    pub open spec fn position_hash(&self) -> u64 {
        let h = self.pieces_hash(128);
        let h = match self.record.en_passant_data {
            Some(d) => h ^ self.keys.en_passant@[d.passed_tile.0 as int],
            None => h,
        };
        if self.active_player == Color::Black {
            h ^ self.keys.black_to_move
        } else {
            h
        }
    }
}

impl Position {
    /// The piece on a tile, white's first.
    pub fn get_occupant(&self, tile_index: &TileIndex) -> (r: Option<Piece>)
        requires
            tile_index.0 < 128,
        ensures
            r == self.model().occupant(tile_index.0 as int),
    {
        if let Some(piece) = self.pieces[0].get_piece_at(tile_index) {
            Some(Piece { piece, color: Color::White })
        } else if let Some(piece) = self.pieces[1].get_piece_at(tile_index) {
            Some(Piece { piece, color: Color::Black })
        } else {
            None
        }
    }

    /// The hash of the position computed from scratch.
    pub fn get_zobrist(&self) -> (r: u64)
        requires
            self.zobrist_table.wf(),
            self.record.en_passant_data matches Some(d) ==> d.passed_tile.0 < 128,
        ensures
            r == self.model().position_hash(),
    {
        let mut output: u64 = 0;
        let mut tile_index: usize = 0;
        while tile_index < 128
            invariant
                tile_index <= 128,
                self.zobrist_table.wf(),
                output == self.model().pieces_hash(tile_index as int),
            decreases 128 - tile_index,
        {
            if let Some(occupant) = self.get_occupant(&TileIndex::new(tile_index)) {
                let piece_idx = occupant.piece.as_idx();
                output = output ^ self.zobrist_table.piece_key(occupant.color.as_idx(), piece_idx, tile_index);
            }
            tile_index = tile_index + 1;
        }
        if let Some(en_passant_data) = &self.record.en_passant_data {
            output = output ^ self.zobrist_table.en_passant[en_passant_data.passed_tile.index()];
        }
        if self.active_player == Color::Black {
            output = output ^ self.zobrist_table.black_to_move;
        }
        output
    }

    /// The position string (see `position_chars`).
    pub fn to_string(&self) -> (r: String)
        ensures
            r@ == self.model().position_chars(),
    {
        let mut output: Vec<char> = Vec::new();
        let mut empty_tile_counter: usize = 0;
        let mut tile: usize = 0;
        while tile < 128
            invariant
                tile <= 128,
                empty_tile_counter <= tile,
                (output@, empty_tile_counter as nat) == self.model().placement(tile as int),
            decreases 128 - tile,
        {
            let tile_index = TileIndex::new(tile);
            match self.get_occupant(&tile_index) {
                Some(piece) => {
                    if empty_tile_counter > 0 {
                        push_decimal(&mut output, empty_tile_counter);
                        empty_tile_counter = 0;
                    }
                    output.push(piece.display());
                },
                None => {
                    empty_tile_counter = empty_tile_counter + 1;
                },
            }
            proof {
                let m = self.model();
                let (prev, _e) = m.placement(tile as int);
                if let Some(p) = m.occupant(tile as int) {
                    assert(output@ =~= m.placement(tile as int + 1).0);
                }
            }
            tile = tile + 1;
        }
        output.push(' ');
        match self.active_player {
            Color::White => output.push('w'),
            Color::Black => output.push('b'),
        }
        output.push(' ');
        if let Some(data) = &self.record.en_passant_data {
            push_decimal(&mut output, data.passed_tile.index());
            output.push(',');
            push_decimal(&mut output, data.occupied_tile.index());
        } else {
            output.push('-');
        }
        proof {
            assert(output@ =~= self.model().position_chars());
        }
        string_from_chars(output)
    }

    /// Whether fifty moves (of either player) have passed without a capture
    /// or a pawn move.
    pub fn fifty_move_draw(&self) -> (r: bool)
        ensures
            r == (self.record.fifty_move_counter >= 50),
    {
        self.record.fifty_move_counter >= 50
    }

    /// The record of the position before the last move, if a move has been
    /// made.
    pub fn get_previous_record(&self) -> (r: Option<PositionRecord>)
        ensures
            r == (if self.history@.len() > 0 {
                Some(self.history@.last())
            } else {
                None
            }),
    {
        if self.history.len() > 0 {
            Some(self.history[self.history.len() - 1])
        } else {
            None
        }
    }
}


// ---- reading back a written position ----

/// Reading the placement written for the tiles below `t` gives back the
/// pieces on those tiles: the counter stands at the first tile not yet
/// accounted for, no digits are pending, and every board holds exactly the
/// tiles below `t` of the position's board.
spec fn placement_read_back(m: PositionModel, t: int) -> bool {
    let (out, e) = m.placement(t);
    let st = fen_scan(out);
    &&& e <= t
    &&& fen_scan_ok(out)
    &&& forall|i: int| 0 <= i < out.len() ==> (#[trigger] out[i]) < 128 as char && out[i] != ' '
    &&& scan_marks(out) == (t - e, Seq::<char>::empty())
    &&& st.boards.len() == 2
    &&& forall|c: int| 0 <= c < 2 ==> (#[trigger] st.boards[c]).len() == 6
    &&& forall|c: int, k: int, x: int|
        0 <= c < 2 && 0 <= k < 6 ==> (#[trigger] st.boards[c][k]@.contains(x)) == (m.boards[c][k]@.contains(x)
            && x < t)
}

/// Digits read after a placement only add to the pending digits.
proof fn lemma_scan_digits(s: Seq<char>, d: Seq<char>)
    requires
        forall|i: int| 0 <= i < d.len() ==> is_digit(#[trigger] d[i]),
    ensures
        fen_scan(s + d) == (FenScan { counter: fen_scan(s).counter, digits: fen_scan(s).digits + d, boards: fen_scan(s).boards }),
        scan_marks(s + d) == (scan_marks(s).0, scan_marks(s).1 + d),
        fen_scan_ok(s + d) == fen_scan_ok(s),
    decreases d.len(),
{
    if d.len() == 0 {
        assert(s + d =~= s);
        assert(fen_scan(s).digits + d =~= fen_scan(s).digits);
        assert(scan_marks(s).1 + d =~= scan_marks(s).1);
    } else {
        lemma_scan_digits(s, d.drop_last());
        assert((s + d).drop_last() =~= s + d.drop_last());
        assert((s + d).last() == d.last());
        assert(is_digit(d[d.len() - 1]));
        assert(fen_scan(s).digits + d.drop_last().push(d.last()) =~= fen_scan(s).digits + d);
        assert(scan_marks(s).1 + d.drop_last().push(d.last()) =~= scan_marks(s).1 + d);
    }
}

/// No board of a player whose first board at `t` is none holds `t`.
proof fn lemma_no_board_at(m: PositionModel, c: int, t: int)
    requires
        m.wf(),
        0 <= c < 2,
        m.piece_index_at(c, t) is None,
    ensures
        forall|k: int| 0 <= k < 6 ==> !(#[trigger] m.boards[c][k]@.contains(t)),
{
    lemma_first_board_from(m.boards[c], t, 0);
}

proof fn lemma_placement_step(m: PositionModel, t: int)
    requires
        m.wf(),
        0 <= t < 128,
        placement_read_back(m, t),
    ensures
        placement_read_back(m, t + 1),
{
    let (out, e) = m.placement(t);
    let st = fen_scan(out);
    lemma_scan_marks(out);
    lemma_first_board_from(m.boards[0], t, 0);
    lemma_first_board_from(m.boards[1], t, 0);
    match m.occupant(t) {
        None => {
            lemma_no_board_at(m, 0, t);
            lemma_no_board_at(m, 1, t);
            assert forall|c: int, k: int, x: int| 0 <= c < 2 && 0 <= k < 6 implies (#[trigger] st.boards[c][k]@.contains(
                x,
            )) == (m.boards[c][k]@.contains(x) && x < t + 1) by {
                if x == t {
                    assert(!m.boards[c][k]@.contains(t));
                }
            }
        },
        Some(p) => {
            let d = if e > 0 {
                decimal_chars(e)
            } else {
                Seq::<char>::empty()
            };
            let ch = p.spec_display();
            let u = out + d;
            let out2 = m.placement(t + 1).0;
            assert(out2 == u + seq![ch]);
            assert(out2 =~= u.push(ch));
            if e > 0 {
                lemma_decimal_chars(e);
            }
            assert forall|i: int| 0 <= i < d.len() implies is_digit(#[trigger] d[i]) by {
                if e > 0 {
                    assert(is_digit(decimal_chars(e)[i]));
                }
            }
            lemma_scan_digits(out, d);
            lemma_scan_marks(u);
            assert(out2.drop_last() =~= u);
            assert(out2.last() == ch);
            assert(!is_digit(ch));
            // the piece goes on tile t
            assert(scan_tile(fen_scan(u)) == t);
            assert(marks_tile(scan_marks(u).0, scan_marks(u).1) == t);
            let color = p.color.spec_idx();
            let k = p.piece.spec_idx();
            assert(is_ascii_upper(ch) == (color == 0));
            assert(piece_type_of_char(ch).spec_idx() == k);
            let st2 = fen_scan(out2);
            assert(st2.boards == st.boards.update(color, flip_at(st.boards[color], k, t)));
            // the piece's own board holds t, no other board does
            let kk = if color == 0 {
                m.piece_index_at(0, t)->0
            } else {
                m.piece_index_at(1, t)->0
            };
            assert(kk == k);
            assert(m.boards[color][k]@.contains(t));
            assert forall|c: int, j: int| 0 <= c < 2 && 0 <= j < 6 && (c != color || j != k) implies !(
            #[trigger] m.boards[c][j]@.contains(t)) by {
                if c == color {
                    assert(m.boards[c][k]@.contains(t));
                } else if color == 0 {
                    assert(union_of(m.boards[0]).contains(t));
                    if m.boards[c][j]@.contains(t) {
                        assert(union_of(m.boards[1]).contains(t));
                    }
                } else {
                    lemma_no_board_at(m, 0, t);
                }
            }
            assert forall|c: int, j: int, x: int| 0 <= c < 2 && 0 <= j < 6 implies (#[trigger] st2.boards[c][j]@.contains(
                x,
            )) == (m.boards[c][j]@.contains(x) && x < t + 1) by {
                if c == color && j == k {
                    crate::piece_set::lemma_flip_contains(st.boards[c][j], t, x);
                    assert(st2.boards[c][j] == flipped(st.boards[c][j], t));
                } else {
                    assert(st2.boards[c][j] == st.boards[c][j]);
                    if x == t {
                        assert(!m.boards[c][j]@.contains(t));
                    }
                }
            }
            assert forall|i: int| 0 <= i < out2.len() implies (#[trigger] out2[i]) < 128 as char && out2[i] != ' ' by {
                if i < out.len() {
                    assert(out2[i] == out[i]);
                } else if i < u.len() {
                    assert(out2[i] == d[i - out.len()]);
                    assert(is_digit(d[i - out.len()]));
                } else {
                    assert(out2[i] == ch);
                }
            }
            lemma_scan_marks(out2);
        },
    }
}

proof fn lemma_placement_read_back(m: PositionModel, t: int)
    requires
        m.wf(),
        0 <= t <= 128,
    ensures
        placement_read_back(m, t),
    decreases t,
{
    if t == 0 {
        let st = fen_scan(Seq::<char>::empty());
        assert forall|c: int, k: int, x: int| 0 <= c < 2 && 0 <= k < 6 implies !(#[trigger] st.boards[c][k]@.contains(x)) by {
            crate::bits::lemma_has_bit_zero(x);
        }
    } else {
        lemma_placement_read_back(m, t - 1);
        lemma_placement_step(m, t - 1);
    }
}

/// Writing a position as a string and reading the string back gives the same
/// pieces and the same player to move. This holds when no en-passant data is
/// pending: the string then carries `-`, while en-passant data would be
/// written as two tile numbers where reading expects three.
pub proof fn lemma_position_string_round_trip(m: PositionModel, keys: ZobristTable)
    requires
        m.wf(),
        m.record.en_passant_data is None,
    ensures
        position_string_ok(m.position_chars()),
        position_from_chars(m.position_chars(), keys).boards == m.boards,
        position_from_chars(m.position_chars(), keys).active_player == m.active_player,
        position_from_chars(m.position_chars(), keys).record == default_record(0),
        position_from_chars(m.position_chars(), keys).position_chars() == m.position_chars(),
{
    lemma_placement_read_back(m, 128);
    let out = m.placement(128).0;
    let w = if m.active_player == Color::White {
        'w'
    } else {
        'b'
    };
    assert(!out.contains(' ')) by {
        if out.contains(' ') {
            let i = choose|i: int| 0 <= i < out.len() && out[i] == ' ';
            assert(out[i] != ' ');
        }
    }
    assert(!seq![w].contains(' ')) by {
        if seq![w].contains(' ') {
            assert(seq![w][0] == ' ');
        }
    }
    assert(!seq!['-'].contains(' ')) by {
        if seq!['-'].contains(' ') {
            assert(seq!['-'][0] == ' ');
        }
    }
    lemma_fields_three(out, seq![w], seq!['-'], ' ');
    assert(m.position_chars() =~= out.push(' ') + seq![w] + seq![' '] + seq!['-']);
    let f = fields(m.position_chars(), ' ');
    assert(f == seq![out, seq![w], seq!['-']]);
    let st = fen_scan(out);
    assert forall|c: int| 0 <= c < 2 implies (#[trigger] st.boards[c]) == m.boards[c] by {
        assert forall|k: int| 0 <= k < 6 implies (#[trigger] st.boards[c][k]) == m.boards[c][k] by {
            lemma_board_finite(m.boards[c][k]);
            assert forall|x: int| (#[trigger] m.boards[c][k]@.contains(x)) implies x < 128 by {
                assert(vstd::set_lib::set_int_range(0, 128).contains(x));
            }
            lemma_view_ext(st.boards[c][k], m.boards[c][k]);
        }
        assert(st.boards[c] =~= m.boards[c]);
    }
    assert(st.boards =~= m.boards);
    if m.active_player == Color::White {
        assert(f[1] == seq!['w']);
    } else {
        assert(f[1] != seq!['w']) by {
            assert(f[1][0] == 'b');
        }
    }
    let r = position_from_chars(m.position_chars(), keys);
    lemma_placement_same_boards(r, m, 128);
}

/// The placement written depends only on the piece boards.
proof fn lemma_placement_same_boards(a: PositionModel, b: PositionModel, t: int)
    requires
        a.boards == b.boards,
    ensures
        a.placement(t) == b.placement(t),
    decreases t,
{
    if t > 0 {
        lemma_placement_same_boards(a, b, t - 1);
        assert(a.occupant(t - 1) == b.occupant(t - 1));
    }
}

} // verus!
