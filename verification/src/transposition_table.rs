use vstd::prelude::*;

use crate::chess_move::Move;

verus! {

/// The number of slots of a transposition table.
pub const TABLE_SIZE: usize = 1_000_000;

/// How a stored score bounds the true score of a position.
#[derive(Debug, Clone, Copy, PartialEq, Eq, Structural)]
pub enum Flag {
    Exact,
    UpperBound,
    LowerBound,
}

/// A searched position: its hash, score, search depth, what the score
/// means, and the best move found.
#[derive(Debug, Clone, Copy, PartialEq, Eq, Structural)]
pub struct Entry {
    pub zobrist_key: u64,
    pub score: i32,
    pub depth: u8,
    pub flag: Flag,
    pub best_move: Option<Move>,
}

/// The slot of a hash.
pub open spec fn slot_of(zobrist_key: u64) -> int {
    (zobrist_key % (TABLE_SIZE as u64)) as int
}

/// What a lookup gives: the stored score when the slot holds the same hash,
/// searched at least as deep, and the score is exact, or a lower bound that
/// reaches `beta`, or an upper bound that stays at or below `alpha`.
pub open spec fn retrieved(
    entries: Seq<Option<Entry>>,
    zobrist_key: u64,
    depth: u8,
    alpha: i32,
    beta: i32,
) -> Option<i32> {
    match entries[slot_of(zobrist_key)] {
        Some(entry) => if entry.zobrist_key == zobrist_key && entry.depth >= depth {
            match entry.flag {
                Flag::Exact => Some(entry.score),
                Flag::LowerBound => if entry.score >= beta {
                    Some(entry.score)
                } else {
                    None
                },
                Flag::UpperBound => if entry.score <= alpha {
                    Some(entry.score)
                } else {
                    None
                },
            }
        } else {
            None
        },
        None => None,
    }
}

/// Whether storing at `depth` for `zobrist_key` replaces what its slot holds:
/// an empty slot, an entry of the same hash, or one searched no deeper.
pub open spec fn replaces(entries: Seq<Option<Entry>>, zobrist_key: u64, depth: u8) -> bool {
    match entries[slot_of(zobrist_key)] {
        Some(existing) => existing.zobrist_key == zobrist_key || depth >= existing.depth,
        None => true,
    }
}

/// The entries after a store.
pub open spec fn stored(
    entries: Seq<Option<Entry>>,
    zobrist_key: u64,
    score: i32,
    depth: u8,
    flag: Flag,
    best_move: Option<Move>,
) -> Seq<Option<Entry>> {
    if replaces(entries, zobrist_key, depth) {
        entries.update(
            slot_of(zobrist_key),
            Some(Entry { zobrist_key, score, depth, flag, best_move }),
        )
    } else {
        entries
    }
}

/// A table of searched positions, one slot per hash modulo its size.
pub struct TranspositionTable {
    pub entries: Vec<Option<Entry>>,
}

impl TranspositionTable {
    pub open spec fn wf(&self) -> bool {
        self.entries@.len() == TABLE_SIZE
    }

    /// An empty table.
    pub fn new() -> (r: Self)
        ensures
            r.wf(),
            forall|i: int| 0 <= i < TABLE_SIZE ==> (#[trigger] r.entries@[i]) is None,
    {
        let mut entries: Vec<Option<Entry>> = Vec::new();
        let mut i: usize = 0;
        while i < TABLE_SIZE
            invariant
                i <= TABLE_SIZE,
                entries@.len() == i,
                forall|j: int| 0 <= j < i ==> (#[trigger] entries@[j]) is None,
            decreases TABLE_SIZE - i,
        {
            entries.push(None);
            i = i + 1;
        }
        TranspositionTable { entries }
    }

    /// The slot of a hash.
    pub fn get_index(&self, zobrist_key: u64) -> (r: usize)
        ensures
            r == slot_of(zobrist_key),
            r < TABLE_SIZE,
    {
        (zobrist_key % (TABLE_SIZE as u64)) as usize
    }

    /// The stored score of a position, where it settles the search (see
    /// `retrieved`).
    pub fn retrieve(&self, zobrist_key: u64, depth: u8, alpha: i32, beta: i32) -> (r: Option<i32>)
        requires
            self.wf(),
        ensures
            r == retrieved(self.entries@, zobrist_key, depth, alpha, beta),
    {
        let index = self.get_index(zobrist_key);
        if let Some(entry) = &self.entries[index] {
            if entry.zobrist_key == zobrist_key {
                if entry.depth >= depth {
                    match entry.flag {
                        Flag::Exact => return Some(entry.score),
                        Flag::LowerBound => if entry.score >= beta {
                            return Some(entry.score);
                        },
                        Flag::UpperBound => if entry.score <= alpha {
                            return Some(entry.score);
                        },
                    }
                }
            }
        }
        None
    }

    /// Stores a searched position, unless its slot holds another position
    /// searched deeper.
    pub fn store(&mut self, zobrist_key: u64, score: i32, depth: u8, flag: Flag, best_move: Option<Move>)
        requires
            old(self).wf(),
        ensures
            final(self).wf(),
            final(self).entries@ == stored(old(self).entries@, zobrist_key, score, depth, flag, best_move),
    {
        let index = self.get_index(zobrist_key);
        let new_entry = Entry { zobrist_key, score, depth, flag, best_move };
        let replace = match &self.entries[index] {
            Some(existing) => existing.zobrist_key == zobrist_key || depth >= existing.depth,
            None => true,
        };
        if replace {
            self.entries.set(index, Some(new_entry));
        }
    }
}

/// A position just stored is found again by a lookup at no greater depth,
/// as far as its flag settles the search: an exact score always, a lower
/// bound when it reaches `beta`, an upper bound when it stays at or below
/// `alpha`.
pub proof fn lemma_store_then_retrieve(
    entries: Seq<Option<Entry>>,
    zobrist_key: u64,
    score: i32,
    depth: u8,
    flag: Flag,
    best_move: Option<Move>,
    lookup_depth: u8,
    alpha: i32,
    beta: i32,
)
    requires
        entries.len() == TABLE_SIZE,
        replaces(entries, zobrist_key, depth),
        lookup_depth <= depth,
    ensures
        retrieved(stored(entries, zobrist_key, score, depth, flag, best_move), zobrist_key, lookup_depth, alpha, beta)
            == match flag {
            Flag::Exact => Some(score),
            Flag::LowerBound => if score >= beta {
                Some(score)
            } else {
                None
            },
            Flag::UpperBound => if score <= alpha {
                Some(score)
            } else {
                None
            },
        },
{
}

/// A store leaves the lookups of hashes in other slots as they were.
pub proof fn lemma_store_keeps_other_slots(
    entries: Seq<Option<Entry>>,
    zobrist_key: u64,
    score: i32,
    depth: u8,
    flag: Flag,
    best_move: Option<Move>,
    other_key: u64,
    lookup_depth: u8,
    alpha: i32,
    beta: i32,
)
    requires
        entries.len() == TABLE_SIZE,
        slot_of(other_key) != slot_of(zobrist_key),
    ensures
        retrieved(stored(entries, zobrist_key, score, depth, flag, best_move), other_key, lookup_depth, alpha, beta)
            == retrieved(entries, other_key, lookup_depth, alpha, beta),
{
}

/// A store that its slot refuses (another position searched deeper is
/// there) changes nothing.
pub proof fn lemma_refused_store_changes_nothing(
    entries: Seq<Option<Entry>>,
    zobrist_key: u64,
    score: i32,
    depth: u8,
    flag: Flag,
    best_move: Option<Move>,
)
    requires
        !replaces(entries, zobrist_key, depth),
    ensures
        stored(entries, zobrist_key, score, depth, flag, best_move) == entries,
{
}

} // verus!
