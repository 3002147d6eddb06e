use vstd::prelude::*;

use crate::chess_move::Move;
use crate::evaluator::{Evaluator, CHECKMATED_SCORE};
use crate::move_generator::MoveTables;
use crate::position::{Position, PositionModel};
use crate::transposition_table::{replaces, retrieved, slot_of, stored, Entry, Flag, TranspositionTable, TABLE_SIZE};

verus! {

/// No score of a search gets beyond this, either way.
pub open spec fn score_bound() -> int {
    1_000_000_000
}

/// Every score stored in the table is within the score bound.
pub open spec fn table_bounded(tt: Seq<Option<Entry>>) -> bool {
    forall|i: int|
        0 <= i < tt.len() ==> (#[trigger] tt[i] matches Some(e) ==> -score_bound() <= e.score <= score_bound())
}

/// The score of a position with no legal moves at remaining depth `depth`:
/// the checkmate score, lowered by the depth that remains (so that a mate
/// found nearer the root counts for more), when the player to move is in
/// check; zero otherwise.
pub open spec fn no_move_score(mg: MoveTables, m: PositionModel, depth: int) -> int {
    if mg.in_check(m, m.active_player) {
        CHECKMATED_SCORE - depth
    } else {
        0
    }
}

/// The flag stored with a search result: a lower bound when it reached
/// `beta`, exact when it lies strictly inside the window `alpha`..`beta` the
/// search was called with, an upper bound otherwise.
pub open spec fn result_flag(best: int, alpha: int, beta: int) -> Flag {
    if best >= beta {
        Flag::LowerBound
    } else if best > alpha {
        Flag::Exact
    } else {
        Flag::UpperBound
    }
}

/// The negamax alpha-beta search with a transposition table: the score of
/// the position for the player to move and the table afterwards.
pub open spec fn alpha_beta_spec(
    ev: Evaluator,
    mg: MoveTables,
    tt: Seq<Option<Entry>>,
    m: PositionModel,
    alpha: int,
    beta: int,
    depth: int,
) -> (int, Seq<Option<Entry>>)
    decreases depth, 1int, 0int,
{
    if depth <= 0 {
        (ev.evaluation(m), tt)
    } else {
        let key = m.position_hash();
        match retrieved(tt, key, depth as u8, alpha as i32, beta as i32) {
            Some(s) => (s as int, tt),
            None => {
                let legal = mg.legal_moves(m);
                if legal.len() == 0 {
                    (no_move_score(mg, m, depth), tt)
                } else {
                    let (best, best_move, _raised_alpha, tt2) = search_moves_spec(
                        ev,
                        mg,
                        tt,
                        m,
                        alpha,
                        beta,
                        depth,
                        legal,
                        0,
                        i32::MIN as int,
                        None,
                    );
                    (
                        best,
                        stored(tt2, key, best as i32, depth as u8, result_flag(best, alpha, beta), best_move),
                    )
                }
            },
        }
    }
}

/// The search over the moves from index `i` on: the best score and move so
/// far, the raised alpha and the table, after each move is searched, until
/// alpha reaches beta.
pub open spec fn search_moves_spec(
    ev: Evaluator,
    mg: MoveTables,
    tt: Seq<Option<Entry>>,
    m: PositionModel,
    alpha: int,
    beta: int,
    depth: int,
    legal: Seq<Move>,
    i: int,
    best: int,
    best_move: Option<Move>,
) -> (int, Option<Move>, int, Seq<Option<Entry>>)
    decreases depth, 0int, legal.len() - i,
{
    if i < 0 || i >= legal.len() || depth <= 0 {
        (best, best_move, alpha, tt)
    } else {
        let (child, tt1) = alpha_beta_spec(ev, mg, tt, m.after_make(legal[i]), -beta, -alpha, depth - 1);
        let score = -child;
        let (best1, move1) = if score > best {
            (score, Some(legal[i]))
        } else {
            (best, best_move)
        };
        let alpha1 = if best1 > alpha {
            best1
        } else {
            alpha
        };
        if alpha1 >= beta {
            (best1, move1, alpha1, tt1)
        } else {
            search_moves_spec(ev, mg, tt1, m, alpha1, beta, depth, legal, i + 1, best1, move1)
        }
    }
}

/// The search from the root over the moves from index `i` on, with the
/// widest window: each move's score is the negated search of the position it
/// leads to, and the first move of the best score is kept.
pub open spec fn root_search_spec(
    ev: Evaluator,
    mg: MoveTables,
    tt: Seq<Option<Entry>>,
    m: PositionModel,
    depth: int,
    legal: Seq<Move>,
    i: int,
    best: int,
    best_move: Option<Move>,
    alpha: int,
) -> (int, Option<Move>, Seq<Option<Entry>>)
    decreases legal.len() - i,
{
    if i < 0 || i >= legal.len() {
        (best, best_move, tt)
    } else {
        let (child, tt1) = alpha_beta_spec(ev, mg, tt, m.after_make(legal[i]), -(i32::MAX as int), -alpha, depth - 1);
        let score = -child;
        if score > best {
            root_search_spec(
                ev,
                mg,
                tt1,
                m,
                depth,
                legal,
                i + 1,
                score,
                Some(legal[i]),
                if score > alpha {
                    score
                } else {
                    alpha
                },
            )
        } else {
            root_search_spec(ev, mg, tt1, m, depth, legal, i + 1, best, best_move, alpha)
        }
    }
}

/// A checkmated player to move scores -99999 less the depth that remains
/// (the nearer the root the mate, the lower the mated side's score, so the
/// winning side prefers the quickest mate); a stalemated one scores 0.
pub proof fn lemma_no_move_scores(mg: MoveTables, m: PositionModel, d1: int, d2: int)
    requires
        0 <= d1 < d2,
    ensures
        no_move_score(mg, m, d1) == (if mg.in_check(m, m.active_player) {
            -99999 - d1
        } else {
            0
        }),
        mg.in_check(m, m.active_player) ==> no_move_score(mg, m, d2) < no_move_score(mg, m, d1) < 0,
{
}

/// The negamax value of a position searched `depth` plies deep: the
/// evaluation at depth 0, the no-move score when there is no legal move, and
/// otherwise the best over the legal moves of the negated value of the
/// position each leads to.
pub open spec fn negamax(ev: Evaluator, mg: MoveTables, m: PositionModel, depth: int) -> int
    decreases depth, 1int, 0int,
{
    if depth <= 0 {
        ev.evaluation(m)
    } else if mg.legal_moves(m).len() == 0 {
        no_move_score(mg, m, depth)
    } else {
        best_of(ev, mg, m, depth, mg.legal_moves(m).len() as int)
    }
}

/// The best negated negamax value over the first `k` legal moves (the
/// smallest `i32` when there are none).
pub open spec fn best_of(ev: Evaluator, mg: MoveTables, m: PositionModel, depth: int, k: int) -> int
    decreases depth, 0int, k,
{
    if k <= 0 || depth <= 0 {
        i32::MIN as int
    } else {
        let prev = best_of(ev, mg, m, depth, k - 1);
        let s = -negamax(ev, mg, m.after_make(mg.legal_moves(m)[k - 1]), depth - 1);
        if s > prev {
            s
        } else {
            prev
        }
    }
}

proof fn lemma_best_of_mono(ev: Evaluator, mg: MoveTables, m: PositionModel, depth: int, j: int, k: int)
    requires
        0 <= j <= k,
    ensures
        best_of(ev, mg, m, depth, j) <= best_of(ev, mg, m, depth, k),
    decreases k - j,
{
    if j < k {
        lemma_best_of_mono(ev, mg, m, depth, j, k - 1);
    }
}

proof fn lemma_search_moves_one_ply(
    ev: Evaluator,
    mg: MoveTables,
    tt: Seq<Option<Entry>>,
    m: PositionModel,
    alpha: int,
    beta: int,
    legal: Seq<Move>,
    i: int,
    best: int,
    best_move: Option<Move>,
)
    requires
        legal == mg.legal_moves(m),
        0 <= i <= legal.len(),
        best == best_of(ev, mg, m, 1, i),
        alpha < beta,
    ensures
        ({
            let r = search_moves_spec(ev, mg, tt, m, alpha, beta, 1, legal, i, best, best_move).0;
            let v = best_of(ev, mg, m, 1, legal.len() as int);
            &&& r < beta ==> r == v
            &&& r >= beta ==> v >= r
        }),
    decreases legal.len() - i,
{
    if i < legal.len() {
        let child = m.after_make(legal[i]);
        assert(alpha_beta_spec(ev, mg, tt, child, -beta, -alpha, 0) == (ev.evaluation(child), tt));
        let score = -ev.evaluation(child);
        assert(negamax(ev, mg, child, 0) == ev.evaluation(child));
        let best1 = if score > best {
            score
        } else {
            best
        };
        assert(best1 == best_of(ev, mg, m, 1, i + 1));
        let alpha1 = if best1 > alpha {
            best1
        } else {
            alpha
        };
        if alpha1 >= beta {
            lemma_best_of_mono(ev, mg, m, 1, i + 1, legal.len() as int);
        } else {
            let move1 = if score > best {
                Some(legal[i])
            } else {
                best_move
            };
            lemma_search_moves_one_ply(ev, mg, tt, m, alpha1, beta, legal, i + 1, best1, move1);
        }
    }
}

/// With one ply to search and no usable entry for the position in the
/// table, the search's score is the negamax value when it lies below `beta`
/// (so in particular when it lies inside the window, or at or below `alpha`),
/// and at least `beta` but at most the negamax value otherwise.
pub proof fn lemma_alpha_beta_one_ply(
    ev: Evaluator,
    mg: MoveTables,
    tt: Seq<Option<Entry>>,
    m: PositionModel,
    alpha: int,
    beta: int,
)
    requires
        i32::MIN < alpha < beta <= i32::MAX,
        retrieved(tt, m.position_hash(), 1u8, alpha as i32, beta as i32) is None,
    ensures
        ({
            let r = alpha_beta_spec(ev, mg, tt, m, alpha, beta, 1).0;
            let v = negamax(ev, mg, m, 1);
            &&& r < beta ==> r == v
            &&& r >= beta ==> beta <= r <= v
        }),
{
    let legal = mg.legal_moves(m);
    if legal.len() > 0 {
        lemma_search_moves_one_ply(ev, mg, tt, m, alpha, beta, legal, 0, i32::MIN as int, None);
    }
}

/// The hashes of the positions a search of `depth` plies from `m` visits
/// with at least one ply to go: `m` itself and, through each legal move in
/// turn, the positions below it.
pub open spec fn search_hashes(mg: MoveTables, m: PositionModel, depth: int) -> Set<u64>
    decreases depth, 1int, 0int,
{
    if depth <= 0 {
        Set::empty()
    } else {
        set![m.position_hash()].union(children_hashes(mg, m, depth, 0))
    }
}

/// The hashes of the positions visited below the legal moves from index `i`
/// on.
pub open spec fn children_hashes(mg: MoveTables, m: PositionModel, depth: int, i: int) -> Set<u64>
    decreases depth, 0int, mg.legal_moves(m).len() - i,
{
    if depth <= 0 || i < 0 || i >= mg.legal_moves(m).len() {
        Set::empty()
    } else {
        search_hashes(mg, m.after_make(mg.legal_moves(m)[i]), depth - 1).union(
            children_hashes(mg, m, depth, i + 1),
        )
    }
}

/// The positions a search of `depth` plies from `m` visits with at least
/// one ply to go have pairwise distinct hashes (as nodes of the search tree:
/// a position reached along two different lines counts twice).
pub open spec fn hashes_distinct(mg: MoveTables, m: PositionModel, depth: int) -> bool
    decreases depth, 1int, 0int,
{
    depth <= 0 || (!children_hashes(mg, m, depth, 0).contains(m.position_hash()) && children_distinct(
        mg,
        m,
        depth,
        0,
    ))
}

pub open spec fn children_distinct(mg: MoveTables, m: PositionModel, depth: int, i: int) -> bool
    decreases depth, 0int, mg.legal_moves(m).len() - i,
{
    if depth <= 0 || i < 0 || i >= mg.legal_moves(m).len() {
        true
    } else {
        let c = m.after_make(mg.legal_moves(m)[i]);
        &&& hashes_distinct(mg, c, depth - 1)
        &&& search_hashes(mg, c, depth - 1).disjoint(children_hashes(mg, m, depth, i + 1))
        &&& children_distinct(mg, m, depth, i + 1)
    }
}

/// No entry of the table has a hash of `keys`.
pub open spec fn table_avoids(tt: Seq<Option<Entry>>, keys: Set<u64>) -> bool {
    forall|i: int| 0 <= i < tt.len() ==> (#[trigger] tt[i] matches Some(e) ==> !keys.contains(e.zobrist_key))
}

/// Every entry of `after` has the hash of an entry of `before` or a hash of
/// `keys`.
pub open spec fn table_keys_within(after: Seq<Option<Entry>>, before: Seq<Option<Entry>>, keys: Set<u64>) -> bool {
    &&& after.len() == before.len()
    &&& forall|i: int|
        0 <= i < after.len() ==> (#[trigger] after[i] matches Some(e) ==> (keys.contains(e.zobrist_key) || exists|
            j: int,
        |
            0 <= j < before.len() && (#[trigger] before[j] matches Some(f) && f.zobrist_key == e.zobrist_key)))
}

/// A fail-soft alpha-beta result: inside the window `alpha`..`beta` it is
/// the value `v`; at or below `alpha` it is an upper bound of `v`; at or
/// above `beta` a lower bound of `v`.
pub open spec fn fail_soft(r: int, v: int, alpha: int, beta: int) -> bool {
    &&& alpha < r < beta ==> r == v
    &&& r <= alpha ==> v <= r
    &&& r >= beta ==> v >= r
}

proof fn lemma_keys_within_trans(
    a: Seq<Option<Entry>>,
    b: Seq<Option<Entry>>,
    c: Seq<Option<Entry>>,
    k1: Set<u64>,
    k2: Set<u64>,
    k: Set<u64>,
)
    requires
        table_keys_within(a, b, k1),
        table_keys_within(b, c, k2),
        k1.subset_of(k),
        k2.subset_of(k),
    ensures
        table_keys_within(a, c, k),
{
    assert forall|i: int| 0 <= i < a.len() implies (#[trigger] a[i] matches Some(e) ==> (k.contains(e.zobrist_key)
        || exists|j: int| 0 <= j < c.len() && (#[trigger] c[j] matches Some(f) && f.zobrist_key == e.zobrist_key))) by {
        if a[i] is Some {
            let e = a[i]->0;
            if !k1.contains(e.zobrist_key) {
                let j = choose|j: int| 0 <= j < b.len() && (#[trigger] b[j] matches Some(f) && f.zobrist_key == e.zobrist_key);
                assert(b[j] matches Some(f) ==> (k2.contains(f.zobrist_key) || exists|l: int|
                    0 <= l < c.len() && (#[trigger] c[l] matches Some(g) && g.zobrist_key == f.zobrist_key)));
            }
        }
    }
}

proof fn lemma_keys_within_refl(a: Seq<Option<Entry>>, k: Set<u64>)
    ensures
        table_keys_within(a, a, k),
{
    assert forall|i: int| 0 <= i < a.len() implies (#[trigger] a[i] matches Some(e) ==> (k.contains(e.zobrist_key)
        || exists|j: int| 0 <= j < a.len() && (#[trigger] a[j] matches Some(f) && f.zobrist_key == e.zobrist_key))) by {
        if a[i] is Some {
            assert(a[i] matches Some(f) && f.zobrist_key == a[i]->0.zobrist_key);
        }
    }
}

proof fn lemma_avoids_within(a: Seq<Option<Entry>>, b: Seq<Option<Entry>>, k: Set<u64>, s: Set<u64>)
    requires
        table_keys_within(a, b, k),
        table_avoids(b, s),
        k.disjoint(s),
    ensures
        table_avoids(a, s),
{
    assert forall|i: int| 0 <= i < a.len() implies (#[trigger] a[i] matches Some(e) ==> !s.contains(e.zobrist_key)) by {
        if a[i] is Some {
            let e = a[i]->0;
            if !k.contains(e.zobrist_key) {
                let j = choose|j: int| 0 <= j < b.len() && (#[trigger] b[j] matches Some(f) && f.zobrist_key == e.zobrist_key);
            }
        }
    }
}

proof fn lemma_stored_within(
    tt: Seq<Option<Entry>>,
    key: u64,
    score: i32,
    depth: u8,
    flag: Flag,
    best_move: Option<Move>,
    k: Set<u64>,
)
    requires
        tt.len() == TABLE_SIZE,
        k.contains(key),
    ensures
        table_keys_within(stored(tt, key, score, depth, flag, best_move), tt, k),
{
    let r = stored(tt, key, score, depth, flag, best_move);
    assert forall|i: int| 0 <= i < r.len() implies (#[trigger] r[i] matches Some(e) ==> (k.contains(e.zobrist_key)
        || exists|j: int| 0 <= j < tt.len() && (#[trigger] tt[j] matches Some(f) && f.zobrist_key == e.zobrist_key))) by {
        if r[i] is Some && i != slot_of(key) {
            assert(r[i] == tt[i]);
            assert(tt[i] matches Some(f) && f.zobrist_key == r[i]->0.zobrist_key);
        }
        if r[i] is Some && i == slot_of(key) && !replaces(tt, key, depth) {
            assert(tt[i] matches Some(f) && f.zobrist_key == r[i]->0.zobrist_key);
        }
    }
}

proof fn lemma_children_hashes_split(mg: MoveTables, m: PositionModel, depth: int, i: int)
    requires
        depth > 0,
        0 <= i < mg.legal_moves(m).len(),
    ensures
        children_hashes(mg, m, depth, i) == search_hashes(mg, m.after_make(mg.legal_moves(m)[i]), depth - 1).union(
            children_hashes(mg, m, depth, i + 1),
        ),
{
}

/// The positions visited below the legal moves from `i` on are among the
/// positions visited from `m`.
proof fn lemma_children_hashes_within(mg: MoveTables, m: PositionModel, depth: int, i: int)
    requires
        depth > 0,
        0 <= i,
    ensures
        children_hashes(mg, m, depth, i).subset_of(search_hashes(mg, m, depth)),
        children_hashes(mg, m, depth, i).subset_of(children_hashes(mg, m, depth, 0)),
    decreases i,
{
    if i > 0 {
        lemma_children_hashes_within(mg, m, depth, i - 1);
        if i - 1 < mg.legal_moves(m).len() {
            lemma_children_hashes_split(mg, m, depth, i - 1);
        }
    }
}

/// The children's distinctness from index `i` on follows from that from
/// index 0.
proof fn lemma_children_distinct_from(mg: MoveTables, m: PositionModel, depth: int, i: int)
    requires
        depth > 0,
        0 <= i,
        children_distinct(mg, m, depth, 0),
    ensures
        children_distinct(mg, m, depth, i),
    decreases i,
{
    if i > 0 {
        lemma_children_distinct_from(mg, m, depth, i - 1);
    }
}

proof fn lemma_keys_within_widen(a: Seq<Option<Entry>>, b: Seq<Option<Entry>>, k1: Set<u64>, k: Set<u64>)
    requires
        table_keys_within(a, b, k1),
        k1.subset_of(k),
    ensures
        table_keys_within(a, b, k),
{
    lemma_keys_within_refl(b, Set::empty());
    lemma_keys_within_trans(a, b, b, k1, Set::empty(), k);
}

proof fn lemma_avoids_subset(tt: Seq<Option<Entry>>, k: Set<u64>, s: Set<u64>)
    requires
        table_avoids(tt, k),
        s.subset_of(k),
    ensures
        table_avoids(tt, s),
{
    assert forall|i: int| 0 <= i < tt.len() implies (#[trigger] tt[i] matches Some(e) ==> !s.contains(e.zobrist_key)) by {
        if tt[i] is Some {
            assert(!k.contains(tt[i]->0.zobrist_key));
        }
    }
}

/// Alpha-beta search is fail-soft with respect to the negamax value: a
/// score strictly inside the window `alpha`..`beta` is the negamax value of
/// the position to `depth` plies, a score at or below `alpha` bounds it from
/// above, and one at or above `beta` bounds it from below. This holds
/// whenever the table gives the search nothing: no entry of the table has
/// the hash of a position the search visits with a ply to go, and those
/// positions have pairwise distinct hashes (so what the search stores is
/// never read back during it). In particular, with the full window a score
/// that is not an extreme `i32` is the negamax value.
pub proof fn lemma_alpha_beta_fail_soft(
    ev: Evaluator,
    mg: MoveTables,
    tt: Seq<Option<Entry>>,
    m: PositionModel,
    alpha: int,
    beta: int,
    depth: int,
)
    requires
        i32::MIN < alpha < beta <= i32::MAX,
        0 <= depth <= 255,
        tt.len() == TABLE_SIZE,
        table_avoids(tt, search_hashes(mg, m, depth)),
        hashes_distinct(mg, m, depth),
    ensures
        fail_soft(alpha_beta_spec(ev, mg, tt, m, alpha, beta, depth).0, negamax(ev, mg, m, depth), alpha, beta),
        table_keys_within(alpha_beta_spec(ev, mg, tt, m, alpha, beta, depth).1, tt, search_hashes(mg, m, depth)),
    decreases depth, 1int, 0int,
{
    if depth <= 0 {
        lemma_keys_within_refl(tt, search_hashes(mg, m, depth));
    } else {
        let key = m.position_hash();
        assert(search_hashes(mg, m, depth).contains(key));
        let slot = slot_of(key);
        assert(0 <= slot < TABLE_SIZE);
        assert(tt[slot] matches Some(e) ==> !search_hashes(mg, m, depth).contains(e.zobrist_key));
        assert(retrieved(tt, key, depth as u8, alpha as i32, beta as i32) is None);
        let legal = mg.legal_moves(m);
        if legal.len() == 0 {
            lemma_keys_within_refl(tt, search_hashes(mg, m, depth));
        } else {
            lemma_children_hashes_within(mg, m, depth, 0);
            lemma_avoids_subset(tt, search_hashes(mg, m, depth), children_hashes(mg, m, depth, 0));
            lemma_search_moves_fail_soft(ev, mg, tt, m, alpha, alpha, beta, depth, legal, 0, i32::MIN as int, None);
            let (best, best_move, _raised, tt2) = search_moves_spec(
                ev,
                mg,
                tt,
                m,
                alpha,
                beta,
                depth,
                legal,
                0,
                i32::MIN as int,
                None,
            );
            lemma_stored_within(
                tt2,
                key,
                best as i32,
                depth as u8,
                result_flag(best, alpha, beta),
                best_move,
                search_hashes(mg, m, depth),
            );
            lemma_keys_within_trans(
                stored(tt2, key, best as i32, depth as u8, result_flag(best, alpha, beta), best_move),
                tt2,
                tt,
                search_hashes(mg, m, depth),
                children_hashes(mg, m, depth, 0),
                search_hashes(mg, m, depth),
            );
        }
    }
}

/// On an empty table (as a new searcher has) with the full window, the
/// search's score is the negamax value of the position, provided the
/// positions it visits with a ply to go have distinct hashes.
pub proof fn lemma_alpha_beta_full_window(
    ev: Evaluator,
    mg: MoveTables,
    tt: Seq<Option<Entry>>,
    m: PositionModel,
    depth: int,
)
    requires
        ev.wf(ev.king.0@.len() as int),
        Searcher::search_ok(ev, mg, m, depth),
        0 <= depth <= 255,
        tt.len() == TABLE_SIZE,
        forall|i: int| 0 <= i < TABLE_SIZE ==> (#[trigger] tt[i]) is None,
        hashes_distinct(mg, m, depth),
    ensures
        alpha_beta_spec(ev, mg, tt, m, i32::MIN as int + 1, i32::MAX as int, depth).0 == negamax(ev, mg, m, depth),
{
    assert(table_avoids(tt, search_hashes(mg, m, depth)));
    assert(table_bounded(tt));
    lemma_alpha_beta_fail_soft(ev, mg, tt, m, i32::MIN as int + 1, i32::MAX as int, depth);
    lemma_alpha_beta_bounds(ev, mg, tt, m, i32::MIN as int + 1, i32::MAX as int, depth);
}

proof fn lemma_search_moves_fail_soft(
    ev: Evaluator,
    mg: MoveTables,
    tt: Seq<Option<Entry>>,
    m: PositionModel,
    alpha0: int,
    alpha: int,
    beta: int,
    depth: int,
    legal: Seq<Move>,
    i: int,
    best: int,
    best_move: Option<Move>,
)
    requires
        legal == mg.legal_moves(m),
        0 <= i <= legal.len(),
        1 <= depth <= 255,
        i32::MIN < alpha0 < beta <= i32::MAX,
        alpha == (if best > alpha0 {
            best
        } else {
            alpha0
        }),
        alpha < beta,
        tt.len() == TABLE_SIZE,
        table_avoids(tt, children_hashes(mg, m, depth, i)),
        children_distinct(mg, m, depth, i),
        best_of(ev, mg, m, depth, i) <= best,
        best > alpha0 ==> best <= best_of(ev, mg, m, depth, i),
    ensures
        fail_soft(
            search_moves_spec(ev, mg, tt, m, alpha, beta, depth, legal, i, best, best_move).0,
            best_of(ev, mg, m, depth, legal.len() as int),
            alpha0,
            beta,
        ),
        table_keys_within(
            search_moves_spec(ev, mg, tt, m, alpha, beta, depth, legal, i, best, best_move).3,
            tt,
            children_hashes(mg, m, depth, i),
        ),
    decreases depth, 0int, legal.len() - i,
{
    if i >= legal.len() {
        lemma_keys_within_refl(tt, children_hashes(mg, m, depth, i));
    } else {
        let c = m.after_make(legal[i]);
        let hc = search_hashes(mg, c, depth - 1);
        let rest = children_hashes(mg, m, depth, i + 1);
        lemma_children_hashes_split(mg, m, depth, i);
        lemma_avoids_subset(tt, children_hashes(mg, m, depth, i), hc);
        lemma_avoids_subset(tt, children_hashes(mg, m, depth, i), rest);
        lemma_alpha_beta_fail_soft(ev, mg, tt, c, -beta, -alpha, depth - 1);
        let (child, tt1) = alpha_beta_spec(ev, mg, tt, c, -beta, -alpha, depth - 1);
        let vc = negamax(ev, mg, c, depth - 1);
        let t = -vc;
        let score = -child;
        assert(best_of(ev, mg, m, depth, i + 1) == if t > best_of(ev, mg, m, depth, i) {
            t
        } else {
            best_of(ev, mg, m, depth, i)
        });
        let (best1, move1) = if score > best {
            (score, Some(legal[i]))
        } else {
            (best, best_move)
        };
        let alpha1 = if best1 > alpha {
            best1
        } else {
            alpha
        };
        lemma_keys_within_widen(tt1, tt, hc, children_hashes(mg, m, depth, i));
        if alpha1 >= beta {
            assert(best1 == score);
            assert(t >= score);
            lemma_best_of_mono(ev, mg, m, depth, i + 1, legal.len() as int);
        } else {
            assert(t <= score);
            if score > best && score > alpha0 {
                assert(t == score);
            }
            lemma_avoids_within(tt1, tt, hc, rest);
            lemma_search_moves_fail_soft(ev, mg, tt1, m, alpha0, alpha1, beta, depth, legal, i + 1, best1, move1);
            lemma_keys_within_trans(
                search_moves_spec(ev, mg, tt1, m, alpha1, beta, depth, legal, i + 1, best1, move1).3,
                tt1,
                tt,
                rest,
                hc,
                children_hashes(mg, m, depth, i),
            );
        }
    }
}

impl Searcher {
    /// The search can run from the position with `depth` to go: its pieces
    /// are on the evaluator's tiles, and with depth left its moves can be
    /// generated, made and tested, and so on for every position reached.
    #[verifier::opaque]
    pub open spec fn search_ok(ev: Evaluator, mg: MoveTables, m: PositionModel, depth: int) -> bool
        decreases depth,
    {
        &&& m.wf()
        &&& forall|c: int, j: int, t: int|
            0 <= c < 2 && 0 <= j < 6 && #[trigger] m.boards[c][j]@.contains(t) ==> t < ev.king.0@.len()
        &&& depth > 0 ==> {
            &&& mg.moves_ok(m)
            &&& mg.in_check_ok(m, m.active_player)
            &&& (m.record.en_passant_data matches Some(d) ==> d.passed_tile.0 < 128)
            &&& forall|i: int|
                0 <= i < mg.legal_moves(m).len() ==> Self::search_ok(
                    ev,
                    mg,
                    m.after_make(#[trigger] mg.legal_moves(m)[i]),
                    depth - 1,
                )
        }
    }
}

impl Searcher {
    /// What `search_ok` says of a position.
    pub proof fn lemma_search_ok_unfold(ev: Evaluator, mg: MoveTables, m: PositionModel, depth: int)
        requires
            Searcher::search_ok(ev, mg, m, depth),
        ensures
            m.wf(),
            forall|c: int, j: int, t: int|
                0 <= c < 2 && 0 <= j < 6 && #[trigger] m.boards[c][j]@.contains(t) ==> t < ev.king.0@.len(),
            depth > 0 ==> mg.moves_ok(m),
            depth > 0 ==> mg.in_check_ok(m, m.active_player),
            depth > 0 ==> (m.record.en_passant_data matches Some(d) ==> d.passed_tile.0 < 128),
            depth > 0 ==> forall|i: int|
                0 <= i < mg.legal_moves(m).len() ==> Self::search_ok(
                    ev,
                    mg,
                    m.after_make(#[trigger] mg.legal_moves(m)[i]),
                    depth - 1,
                ),
    {
        reveal(Searcher::search_ok);
    }
}

/// The outcome of a search from the root: the best move, if there is a
/// legal move, and its score.
#[derive(Debug)]
pub struct SearchResult {
    pub best_move: Option<Move>,
    pub best_score: i32,
}

/// A searcher: its transposition table, evaluator and move generator.
pub struct Searcher {
    pub transposition_table: TranspositionTable,
    pub evaluator: Evaluator,
    pub movegen: MoveTables,
    pub nodes_searched: usize,
}

impl Searcher {
    /// A searcher with an empty table and the evaluator of the movement
    /// tables' board.
    pub fn new(movegen: MoveTables) -> (r: Self)
        requires
            movegen.wf(),
        ensures
            r.movegen == movegen,
            r.evaluator.wf(movegen.num_tiles()),
            r.evaluator.built_from(movegen),
            r.transposition_table.wf(),
            forall|i: int| 0 <= i < TABLE_SIZE ==> (#[trigger] r.transposition_table.entries@[i]) is None,
            r.nodes_searched == 0,
    {
        let evaluator = Evaluator::new(&movegen);
        Searcher { transposition_table: TranspositionTable::new(), evaluator, movegen, nodes_searched: 0 }
    }
}


proof fn lemma_stored_bounded(tt: Seq<Option<Entry>>, key: u64, score: i32, depth: u8, flag: Flag, best_move: Option<Move>)
    requires
        table_bounded(tt),
        tt.len() == TABLE_SIZE,
        -score_bound() <= score <= score_bound(),
    ensures
        table_bounded(stored(tt, key, score, depth, flag, best_move)),
        stored(tt, key, score, depth, flag, best_move).len() == TABLE_SIZE,
{
    let r = stored(tt, key, score, depth, flag, best_move);
    assert forall|i: int| 0 <= i < r.len() implies (#[trigger] r[i] matches Some(e) ==> -score_bound() <= e.score
        <= score_bound()) by {
        assert(tt[i] matches Some(e) ==> -score_bound() <= e.score <= score_bound());
    }
}

proof fn lemma_retrieved_bounded(tt: Seq<Option<Entry>>, key: u64, depth: u8, alpha: i32, beta: i32)
    requires
        table_bounded(tt),
        tt.len() == TABLE_SIZE,
    ensures
        retrieved(tt, key, depth, alpha, beta) matches Some(s) ==> -score_bound() <= s <= score_bound(),
{
    let i = crate::transposition_table::slot_of(key);
    assert(0 <= i < TABLE_SIZE);
    assert(tt[i] matches Some(e) ==> -score_bound() <= e.score <= score_bound());
}

/// Search scores stay within the score bound and keep the table's scores
/// within it.
pub proof fn lemma_alpha_beta_bounds(
    ev: Evaluator,
    mg: MoveTables,
    tt: Seq<Option<Entry>>,
    m: PositionModel,
    alpha: int,
    beta: int,
    depth: int,
)
    requires
        ev.wf(ev.king.0@.len() as int),
        Searcher::search_ok(ev, mg, m, depth),
        table_bounded(tt),
        tt.len() == TABLE_SIZE,
        depth <= 255,
    ensures
        -score_bound() <= alpha_beta_spec(ev, mg, tt, m, alpha, beta, depth).0 <= score_bound(),
        table_bounded(alpha_beta_spec(ev, mg, tt, m, alpha, beta, depth).1),
        alpha_beta_spec(ev, mg, tt, m, alpha, beta, depth).1.len() == TABLE_SIZE,
    decreases depth, 1int, 0int,
{
    Searcher::lemma_search_ok_unfold(ev, mg, m, depth);
    if depth <= 0 {
        ev.lemma_evaluation_bound(m);
    } else {
        let key = m.position_hash();
        lemma_retrieved_bounded(tt, key, depth as u8, alpha as i32, beta as i32);
        match retrieved(tt, key, depth as u8, alpha as i32, beta as i32) {
            Some(s) => {},
            None => {
                let legal = mg.legal_moves(m);
                if legal.len() > 0 {
                    lemma_search_moves_bounds(ev, mg, tt, m, alpha, beta, depth, legal, 0, i32::MIN as int, None);
                    let (best, best_move, _raised_alpha, tt2) = search_moves_spec(
                        ev,
                        mg,
                        tt,
                        m,
                        alpha,
                        beta,
                        depth,
                        legal,
                        0,
                        i32::MIN as int,
                        None,
                    );
                    lemma_stored_bounded(tt2, key, best as i32, depth as u8, result_flag(best, alpha, beta), best_move);
                }
            },
        }
    }
}

proof fn lemma_search_moves_bounds(
    ev: Evaluator,
    mg: MoveTables,
    tt: Seq<Option<Entry>>,
    m: PositionModel,
    alpha: int,
    beta: int,
    depth: int,
    legal: Seq<Move>,
    i: int,
    best: int,
    best_move: Option<Move>,
)
    requires
        ev.wf(ev.king.0@.len() as int),
        0 < depth <= 255,
        legal == mg.legal_moves(m),
        Searcher::search_ok(ev, mg, m, depth),
        table_bounded(tt),
        tt.len() == TABLE_SIZE,
        0 <= i,
        best == i32::MIN || -score_bound() <= best <= score_bound(),
        i >= legal.len() ==> -score_bound() <= best <= score_bound(),
    ensures
        -score_bound() <= search_moves_spec(ev, mg, tt, m, alpha, beta, depth, legal, i, best, best_move).0 <= score_bound(),
        table_bounded(search_moves_spec(ev, mg, tt, m, alpha, beta, depth, legal, i, best, best_move).3),
        search_moves_spec(ev, mg, tt, m, alpha, beta, depth, legal, i, best, best_move).3.len() == TABLE_SIZE,
    decreases depth, 0int, legal.len() - i,
{
    Searcher::lemma_search_ok_unfold(ev, mg, m, depth);
    if i < legal.len() {
        assert(Searcher::search_ok(ev, mg, m.after_make(legal[i]), depth - 1));
        lemma_alpha_beta_bounds(ev, mg, tt, m.after_make(legal[i]), -beta, -alpha, depth - 1);
        let (child, tt1) = alpha_beta_spec(ev, mg, tt, m.after_make(legal[i]), -beta, -alpha, depth - 1);
        let score = -child;
        let (best1, move1) = if score > best {
            (score, Some(legal[i]))
        } else {
            (best, best_move)
        };
        let alpha1 = if best1 > alpha {
            best1
        } else {
            alpha
        };
        if alpha1 < beta {
            lemma_search_moves_bounds(ev, mg, tt1, m, alpha1, beta, depth, legal, i + 1, best1, move1);
        }
    }
}

impl Searcher {
    /// The search's invariant state: the evaluator and move generator are
    /// well formed, and the table is in place with its scores in bounds.
    pub open spec fn wf(&self) -> bool {
        &&& self.evaluator.wf(self.evaluator.king.0@.len() as int)
        &&& self.movegen.wf()
        &&& self.transposition_table.wf()
        &&& table_bounded(self.transposition_table.entries@)
    }

    /// The negamax alpha-beta score of the position for the player to move,
    /// searched `depth` moves deep with the transposition table (see
    /// `alpha_beta_spec`); the position is left as it was.
    #[verifier::rlimit(50)]
    pub fn alpha_beta(&mut self, position: &mut Position, alpha: i32, beta: i32, depth: u8) -> (r: i32)
        requires
            old(self).wf(),
            old(position).wf(),
            Searcher::search_ok(old(self).evaluator, old(self).movegen, old(position).model(), depth as int),
            alpha > i32::MIN,
            beta > i32::MIN,
        ensures
            (r as int, final(self).transposition_table.entries@) == alpha_beta_spec(
                old(self).evaluator,
                old(self).movegen,
                old(self).transposition_table.entries@,
                old(position).model(),
                alpha as int,
                beta as int,
                depth as int,
            ),
            -score_bound() <= r <= score_bound(),
            final(self).wf(),
            final(self).evaluator == old(self).evaluator,
            final(self).movegen == old(self).movegen,
            final(position).model() == old(position).model(),
            final(position).wf(),
        decreases depth,
    {
        let ghost model = position.model();
        let ghost ev = self.evaluator;
        let ghost mg = self.movegen;
        let ghost tt0 = self.transposition_table.entries@;
        proof {
            Searcher::lemma_search_ok_unfold(ev, mg, model, depth as int);
            lemma_alpha_beta_bounds(ev, mg, tt0, model, alpha as int, beta as int, depth as int);
        }
        if depth == 0 {
            proof {
                ev.lemma_evaluation_bound(model);
            }
            return self.evaluator.evaluate(position) as i32;
        }
        let key = position.get_zobrist();
        if let Some(tt_score) = self.transposition_table.retrieve(key, depth, alpha, beta) {
            return tt_score;
        }
        let legal_moves = self.movegen.get_legal_moves(position);
        if legal_moves.len() == 0 {
            return if position.is_checkmate(&self.movegen) {
                CHECKMATED_SCORE as i32 - depth as i32
            } else {
                0
            };
        }
        let mut best_score: i32 = i32::MIN;
        let mut best_move: Option<Move> = None;
        let window_alpha = alpha;
        let mut alpha = alpha;
        let moves = self.movegen.get_legal_moves(position);
        let ghost legal = moves@;
        let ghost result = search_moves_spec(ev, mg, tt0, model, alpha as int, beta as int, depth as int, legal, 0, i32::MIN as int, None);
        proof {
            lemma_search_moves_bounds(ev, mg, tt0, model, alpha as int, beta as int, depth as int, legal, 0, i32::MIN as int, None);
        }
        let mut i: usize = 0;
        while i < moves.len()
            invariant_except_break
                search_moves_spec(
                    ev,
                    mg,
                    self.transposition_table.entries@,
                    model,
                    alpha as int,
                    beta as int,
                    depth as int,
                    legal,
                    i as int,
                    best_score as int,
                    best_move,
                ) == result,
            invariant
                self.wf(),
                self.evaluator == ev,
                self.movegen == mg,
                position.wf(),
                position.model() == model,
                ev.wf(ev.king.0@.len() as int),
                0 < depth,
                legal == mg.legal_moves(model),
                moves@ == legal,
                legal.len() > 0,
                Searcher::search_ok(ev, mg, model, depth as int),
                i <= legal.len(),
                alpha > i32::MIN,
                beta > i32::MIN,
                best_score == i32::MIN || -score_bound() <= best_score <= score_bound(),
                i > 0 ==> -score_bound() <= best_score <= score_bound(),
            ensures
                (best_score as int, best_move, alpha as int, self.transposition_table.entries@) == result,
                -score_bound() <= best_score <= score_bound(),
            decreases legal.len() - i,
        {
            let current_move = moves[i];
            let ghost tt_before = self.transposition_table.entries@;
            let ghost alpha_before = alpha as int;
            let ghost best_before = best_score as int;
            let ghost move_before = best_move;
            proof {
                Searcher::lemma_search_ok_unfold(ev, mg, model, depth as int);
                mg.lemma_legal_move_ok(model, i as int);
                crate::position::lemma_unmake_undoes_make(model, current_move);
                assert(Searcher::search_ok(ev, mg, model.after_make(legal[i as int]), depth - 1));
                Searcher::lemma_search_ok_unfold(ev, mg, model.after_make(legal[i as int]), depth - 1);
                lemma_search_moves_bounds(ev, mg, tt_before, model, alpha as int, beta as int, depth as int, legal, i as int, best_score as int, best_move);
            }
            position.make_legal_move(&current_move);
            let child = self.alpha_beta(position, -beta, -alpha, depth - 1);
            let score = -child;
            position.unmake_legal_move(&current_move);
            if score > best_score {
                best_score = score;
                best_move = Some(current_move);
            }
            if best_score > alpha {
                alpha = best_score;
            }
            proof {
                assert((child as int, self.transposition_table.entries@) == alpha_beta_spec(
                    ev,
                    mg,
                    tt_before,
                    model.after_make(legal[i as int]),
                    -beta,
                    -alpha_before,
                    depth - 1,
                ));
                if i + 1 < legal.len() && alpha < beta {
                    lemma_search_moves_bounds(
                        ev,
                        mg,
                        self.transposition_table.entries@,
                        model,
                        alpha as int,
                        beta as int,
                        depth as int,
                        legal,
                        i as int + 1,
                        best_score as int,
                        best_move,
                    );
                }
            }
            if alpha >= beta {
                break;
            }
            i = i + 1;
        }
        let flag = if best_score >= beta {
            Flag::LowerBound
        } else if best_score > window_alpha {
            Flag::Exact
        } else {
            Flag::UpperBound
        };
        proof {
            lemma_stored_bounded(self.transposition_table.entries@, key, best_score, depth, flag, best_move);
        }
        self.transposition_table.store(key, best_score, depth, flag, best_move);
        best_score
    }
}


proof fn lemma_root_search_bounds(
    ev: Evaluator,
    mg: MoveTables,
    tt: Seq<Option<Entry>>,
    m: PositionModel,
    depth: int,
    legal: Seq<Move>,
    i: int,
    best: int,
    best_move: Option<Move>,
    alpha: int,
)
    requires
        ev.wf(ev.king.0@.len() as int),
        0 < depth <= 255,
        legal == mg.legal_moves(m),
        Searcher::search_ok(ev, mg, m, depth),
        table_bounded(tt),
        tt.len() == TABLE_SIZE,
        0 <= i,
        best == i32::MIN || -score_bound() <= best <= score_bound(),
        i >= legal.len() ==> -score_bound() <= best <= score_bound(),
        alpha > i32::MIN,
    ensures
        -score_bound() <= root_search_spec(ev, mg, tt, m, depth, legal, i, best, best_move, alpha).0 <= score_bound(),
        table_bounded(root_search_spec(ev, mg, tt, m, depth, legal, i, best, best_move, alpha).2),
        root_search_spec(ev, mg, tt, m, depth, legal, i, best, best_move, alpha).2.len() == TABLE_SIZE,
    decreases legal.len() - i,
{
    Searcher::lemma_search_ok_unfold(ev, mg, m, depth);
    if i < legal.len() {
        assert(Searcher::search_ok(ev, mg, m.after_make(legal[i]), depth - 1));
        lemma_alpha_beta_bounds(ev, mg, tt, m.after_make(legal[i]), -(i32::MAX as int), -alpha, depth - 1);
        let (child, tt1) = alpha_beta_spec(ev, mg, tt, m.after_make(legal[i]), -(i32::MAX as int), -alpha, depth - 1);
        let score = -child;
        if score > best {
            lemma_root_search_bounds(
                ev,
                mg,
                tt1,
                m,
                depth,
                legal,
                i + 1,
                score,
                Some(legal[i]),
                if score > alpha {
                    score
                } else {
                    alpha
                },
            );
        } else {
            lemma_root_search_bounds(ev, mg, tt1, m, depth, legal, i + 1, best, best_move, alpha);
        }
    }
}

impl Searcher {
    /// The best move of the position and its score: every legal move is
    /// searched `max_depth - 1` moves further with the widest window that
    /// the best score so far allows, and the first move of the highest
    /// score is kept; no move and a score of zero when there is no legal
    /// move.
    #[verifier::rlimit(50)]
    pub fn get_best_move(&mut self, position: &mut Position, max_depth: u8) -> (r: SearchResult)
        requires
            old(self).wf(),
            old(position).wf(),
            old(self).movegen.moves_ok(old(position).model()),
            Searcher::search_ok(old(self).evaluator, old(self).movegen, old(position).model(), max_depth as int),
            old(self).movegen.legal_moves(old(position).model()).len() > 0 ==> max_depth >= 1,
        ensures
            old(self).movegen.legal_moves(old(position).model()).len() == 0 ==> r.best_move is None && r.best_score == 0
                && final(self).transposition_table.entries@ == old(self).transposition_table.entries@,
            old(self).movegen.legal_moves(old(position).model()).len() > 0 ==> (
                r.best_score as int,
                r.best_move,
                final(self).transposition_table.entries@,
            ) == root_search_spec(
                old(self).evaluator,
                old(self).movegen,
                old(self).transposition_table.entries@,
                old(position).model(),
                max_depth as int,
                old(self).movegen.legal_moves(old(position).model()),
                0,
                i32::MIN as int,
                None,
                i32::MIN as int + 1,
            ),
            final(self).wf(),
            final(self).evaluator == old(self).evaluator,
            final(self).movegen == old(self).movegen,
            final(position).model() == old(position).model(),
            final(position).wf(),
    {
        let ghost model = position.model();
        let ghost ev = self.evaluator;
        let ghost mg = self.movegen;
        let ghost tt0 = self.transposition_table.entries@;
        let legal_moves = self.movegen.get_legal_moves(position);
        if legal_moves.len() == 0 {
            return SearchResult { best_move: None, best_score: 0 };
        }
        let ghost legal = legal_moves@;
        let mut best_score: i32 = i32::MIN;
        let mut best_move: Option<Move> = None;
        let mut alpha: i32 = i32::MIN + 1;
        let beta: i32 = i32::MAX;
        let ghost result = root_search_spec(ev, mg, tt0, model, max_depth as int, legal, 0, i32::MIN as int, None, i32::MIN as int + 1);
        proof {
            lemma_root_search_bounds(ev, mg, tt0, model, max_depth as int, legal, 0, i32::MIN as int, None, i32::MIN as int + 1);
        }
        let mut i: usize = 0;
        while i < legal_moves.len()
            invariant
                self.wf(),
                self.evaluator == ev,
                self.movegen == mg,
                position.wf(),
                position.model() == model,
                ev.wf(ev.king.0@.len() as int),
                1 <= max_depth,
                legal == mg.legal_moves(model),
                legal_moves@ == legal,
                Searcher::search_ok(ev, mg, model, max_depth as int),
                i <= legal.len(),
                alpha > i32::MIN,
                beta == i32::MAX,
                best_score == i32::MIN || -score_bound() <= best_score <= score_bound(),
                i > 0 ==> -score_bound() <= best_score <= score_bound(),
                root_search_spec(
                    ev,
                    mg,
                    self.transposition_table.entries@,
                    model,
                    max_depth as int,
                    legal,
                    i as int,
                    best_score as int,
                    best_move,
                    alpha as int,
                ) == result,
            decreases legal.len() - i,
        {
            let current_move = legal_moves[i];
            let ghost tt_before = self.transposition_table.entries@;
            let ghost alpha_before = alpha as int;
            proof {
                Searcher::lemma_search_ok_unfold(ev, mg, model, max_depth as int);
                mg.lemma_legal_move_ok(model, i as int);
                crate::position::lemma_unmake_undoes_make(model, current_move);
                assert(Searcher::search_ok(ev, mg, model.after_make(legal[i as int]), max_depth - 1));
                Searcher::lemma_search_ok_unfold(ev, mg, model.after_make(legal[i as int]), max_depth - 1);
                lemma_root_search_bounds(ev, mg, tt_before, model, max_depth as int, legal, i as int, best_score as int, best_move, alpha as int);
            }
            position.make_legal_move(&current_move);
            let child = self.alpha_beta(position, -beta, -alpha, max_depth - 1);
            let score = -child;
            position.unmake_legal_move(&current_move);
            if score > best_score {
                best_score = score;
                best_move = Some(current_move);
                if best_score > alpha {
                    alpha = best_score;
                }
            }
            proof {
                assert((child as int, self.transposition_table.entries@) == alpha_beta_spec(
                    ev,
                    mg,
                    tt_before,
                    model.after_make(legal[i as int]),
                    -(i32::MAX as int),
                    -alpha_before,
                    max_depth - 1,
                ));
                if i + 1 < legal.len() {
                    lemma_root_search_bounds(
                        ev,
                        mg,
                        self.transposition_table.entries@,
                        model,
                        max_depth as int,
                        legal,
                        i as int + 1,
                        best_score as int,
                        best_move,
                        alpha as int,
                    );
                }
            }
            i = i + 1;
        }
        SearchResult { best_move, best_score }
    }
}

} // verus!
