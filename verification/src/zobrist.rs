use vstd::prelude::*;
use rand::rngs::StdRng;
use rand::distributions::Standard;
use rand::{Rng, SeedableRng};

use crate::constants::{MAX_NUM_TILES, NUM_PIECE_TYPES, NUM_PLAYERS};

verus! {

/// The first `count` values of type `u64` drawn from rand's `StdRng` seeded
/// with `seed` by `SeedableRng::seed_from_u64`.
pub uninterp spec fn seeded_u64_stream(seed: u64, count: nat) -> Seq<u64>;

/// Draws `count` values of type `u64` from rand's `StdRng` made by
/// `SeedableRng::seed_from_u64(seed)`, through `Rng::sample_iter` with the
/// `Standard` distribution (the values `Rng::gen` would give one by one).
/// The generator is deterministic, so the values are a function of the seed
/// and the count; what they are is left unstated.
#[verifier::external_body]
fn seeded_u64_values(seed: u64, count: usize) -> (r: Vec<u64>)
    ensures
        r@ == seeded_u64_stream(seed, count as nat),
        r@.len() == count,
{
    StdRng::seed_from_u64(seed).sample_iter(Standard).take(count).collect()
}

/// The seed of the hash keys.
pub const ZOBRIST_SEED: u64 = 5435651169991665628;

/// The number of keys drawn: one for the side to move, then for every tile
/// twelve piece keys and one en-passant key.
pub const ZOBRIST_STREAM_LEN: usize = 1 + 13 * 128;

/// Random keys for hashing positions. `pieces` holds the key of player `p`,
/// piece type `k` and tile `t` at index `(p * 6 + k) * 128 + t`.
#[derive(Debug)]
pub struct ZobristTable {
    pub pieces: Vec<u64>,
    pub en_passant: Vec<u64>,
    pub black_to_move: u64,
}

/// The index of a piece key in `ZobristTable::pieces`.
pub open spec fn piece_key_index(player: int, piece: int, tile: int) -> int {
    (player * 6 + piece) * 128 + tile
}

impl ZobristTable {
    pub open spec fn wf(&self) -> bool {
        &&& self.pieces@.len() == NUM_PLAYERS * NUM_PIECE_TYPES * MAX_NUM_TILES
        &&& self.en_passant@.len() == MAX_NUM_TILES
    }

    pub open spec fn spec_piece_key(&self, player: int, piece: int, tile: int) -> u64 {
        self.pieces@[piece_key_index(player, piece, tile)]
    }

    /// The keys are those drawn from the seeded generator in the order: side
    /// to move, then tile by tile the piece keys (player by player, piece type
    /// by piece type) and the en-passant key.
    pub open spec fn is_generated(&self) -> bool {
        let s = seeded_u64_stream(ZOBRIST_SEED, ZOBRIST_STREAM_LEN as nat);
        &&& self.black_to_move == s[0]
        &&& forall|p: int, k: int, t: int|
            0 <= p < 2 && 0 <= k < 6 && 0 <= t < 128 ==> #[trigger] self.spec_piece_key(p, k, t) == s[1 + t * 13
                + p * 6 + k]
        &&& forall|t: int| 0 <= t < 128 ==> #[trigger] self.en_passant@[t] == s[1 + t * 13 + 12]
    }

    /// The hash keys, drawn from the generator seeded with `ZOBRIST_SEED`.
    pub fn generate() -> (r: Self)
        ensures
            r.wf(),
            r.is_generated(),
    {
        let values = seeded_u64_values(ZOBRIST_SEED, ZOBRIST_STREAM_LEN);
        let black_to_move = values[0];
        let mut pieces: Vec<u64> = Vec::new();
        let mut slot: usize = 0;
        while slot < NUM_PLAYERS * NUM_PIECE_TYPES * MAX_NUM_TILES
            invariant
                values@.len() == ZOBRIST_STREAM_LEN,
                slot <= 1536,
                pieces@.len() == slot,
                forall|i: int|
                    0 <= i < slot ==> #[trigger] pieces@[i] == values@[1 + (i % 128) * 13 + i / 128],
            decreases 1536 - slot,
        {
            let t = slot % MAX_NUM_TILES;
            let pk = slot / MAX_NUM_TILES;
            pieces.push(values[1 + t * 13 + pk]);
            slot = slot + 1;
        }
        let mut en_passant: Vec<u64> = Vec::new();
        let mut t: usize = 0;
        while t < MAX_NUM_TILES
            invariant
                values@.len() == ZOBRIST_STREAM_LEN,
                t <= 128,
                en_passant@.len() == t,
                forall|i: int| 0 <= i < t ==> #[trigger] en_passant@[i] == values@[1 + i * 13 + 12],
            decreases 128 - t,
        {
            en_passant.push(values[1 + t * 13 + 12]);
            t = t + 1;
        }
        let r = Self { pieces, en_passant, black_to_move };
        proof {
            assert forall|p: int, k: int, t: int|
                0 <= p < 2 && 0 <= k < 6 && 0 <= t < 128 implies #[trigger] r.spec_piece_key(p, k, t)
                == values@[1 + t * 13 + p * 6 + k] by {
                let i = piece_key_index(p, k, t);
                assert(i % 128 == t && i / 128 == p * 6 + k) by (nonlinear_arith)
                    requires
                        i == (p * 6 + k) * 128 + t,
                        0 <= t < 128,
                        0 <= p * 6 + k,
                ;
            }
        }
        r
    }

    /// The key of a piece of one player and type on a tile.
    pub fn piece_key(&self, player: usize, piece: usize, tile: usize) -> (r: u64)
        requires
            self.wf(),
            player < 2,
            piece < 6,
            tile < 128,
        ensures
            r == self.spec_piece_key(player as int, piece as int, tile as int),
    {
        self.pieces[(player * NUM_PIECE_TYPES + piece) * MAX_NUM_TILES + tile]
    }
}

} // verus!
