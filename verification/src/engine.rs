use vstd::prelude::*;

use crate::chess_move::Move;
use crate::evaluator::Evaluator;
use crate::move_generator::MoveTables;
use crate::position::Position;

verus! {

/// The computer player: the movement tables of its board and its evaluator.
pub struct Engine {
    pub move_tables: MoveTables,
    pub evaluator: Evaluator,
}

impl Engine {
    /// An engine for the board of the movement tables.
    pub fn new(move_tables: MoveTables) -> (r: Self)
        requires
            move_tables.wf(),
        ensures
            r.move_tables == move_tables,
            r.evaluator.wf(move_tables.num_tiles()),
            r.evaluator.built_from(move_tables),
    {
        let evaluator = Evaluator::new(&move_tables);
        Self { move_tables, evaluator }
    }

    /// The engine's move: the middle one of the legal moves, in generation
    /// order.
    pub fn search_for_move(&self, position: &mut Position) -> (r: Move)
        requires
            self.move_tables.wf(),
            old(position).wf(),
            self.move_tables.moves_ok(old(position).model()),
            self.move_tables.legal_moves(old(position).model()).len() > 0,
        ensures
            r == self.move_tables.legal_moves(old(position).model())[self.move_tables.legal_moves(
                old(position).model(),
            ).len() as int / 2],
            final(position).model() == old(position).model(),
            final(position).wf(),
    {
        let moves = self.move_tables.get_legal_moves(position);
        let num_moves = moves.len();
        let move_idx = num_moves / 2;
        moves[move_idx]
    }
}

} // verus!
