use crate::board::{
    empty_board, lemma_empty_wf, lemma_exists_legal, lemma_moves_bound, lemma_play_wf, Board,
};
use crate::color::Color;
use crate::error::PositionOpError;
use crate::position::{copy_vec, Position};
use std::collections::HashMap;
use vstd::prelude::*;

verus! {

broadcast use vstd::std_specs::hash::group_hash_axioms;

/// The exact negamax value of a board, from the side to move's point of view.
///
/// A position with an immediate winning column scores `(43 - moves) / 2`:
/// winning with one's last chip scores 1, and every chip the winner has to
/// spare adds one. A full board without a winning move is a draw and scores 0.
/// Anywhere else the score is the best score, negated, that the opponent can
/// reach over all legal replies.
pub open spec fn spec_score(b: Board) -> int
    decreases 42 - b.moves, 8int,
{
    if b.has_winning_move() {
        (43 - b.moves) / 2
    } else if b.moves >= 42 {
        0
    } else {
        best_score(b, 7)
    }
}

/// The best negamax value the side to move can reach among the legal columns
/// below `n`; -100 when none of them is legal.
pub open spec fn best_score(b: Board, n: int) -> int
    decreases 42 - b.moves, n,
{
    if n <= 0 {
        -100
    } else {
        let rest = best_score(b, n - 1);
        if b.moves < 42 && b.legal(n - 1) {
            let child = -spec_score(b.play(n - 1));
            if child > rest {
                child
            } else {
                rest
            }
        } else {
            rest
        }
    }
}

/// The exact score of a well-formed board lies between -21 and 21: a win can
/// spare at most twenty chips.
pub proof fn lemma_score_bounds(b: Board)
    requires
        b.wf(),
    ensures
        -21 <= spec_score(b) <= 21,
    decreases 42 - b.moves, 8int,
{
    lemma_moves_bound(b);
    if b.has_winning_move() {
        let c = choose|c: int| 0 <= c < 7 && #[trigger] b.wins(c);
        assert(b.legal(c));
    } else if b.moves < 42 {
        lemma_exists_legal(b);
        lemma_best_score_props(b, 7);
    }
}

/// `best_score(b, n)` is exactly the maximum of the negated child scores of
/// the legal columns below `n`, and -100 exactly when no such column exists.
pub proof fn lemma_best_score_props(b: Board, n: int)
    requires
        b.wf(),
        b.moves < 42,
        0 <= n <= 7,
    ensures
        forall|c: int|
            0 <= c < n && #[trigger] b.legal(c) ==> -spec_score(b.play(c)) <= best_score(b, n),
        best_score(b, n) == -100 || exists|c: int|
            0 <= c < n && #[trigger] b.legal(c) && best_score(b, n) == -spec_score(b.play(c)),
        (exists|c: int| 0 <= c < n && #[trigger] b.legal(c)) ==> -21 <= best_score(b, n) <= 21,
    decreases 42 - b.moves, n,
{
    if n > 0 {
        lemma_best_score_props(b, n - 1);
        if b.legal(n - 1) {
            lemma_play_wf(b, n - 1);
            lemma_score_bounds(b.play(n - 1));
        }
    }
}

/// The board reached by replaying `cols` from the empty board. Meaningful only
/// while every replayed move is legal.
pub open spec fn board_after(cols: Seq<usize>) -> Board
    decreases cols.len(),
{
    if cols.len() == 0 {
        empty_board()
    } else {
        board_after(cols.drop_last()).play(cols.last() as int)
    }
}

/// The first `n` moves of `cols` are each legal when replayed in order from
/// the empty board.
pub open spec fn prefix_legal(cols: Seq<usize>, n: int) -> bool {
    forall|i: int| 0 <= i < n ==> #[trigger] board_after(cols.take(i)).legal(cols[i] as int)
}

/// Every move of `cols` is legal when replayed in order.
pub open spec fn seq_legal(cols: Seq<usize>) -> bool {
    prefix_legal(cols, cols.len() as int)
}

/// The error a single illegal move reports: the range check comes before the
/// fullness check.
pub open spec fn leaf_error(c: usize) -> PositionOpError {
    if c >= 7 {
        PositionOpError::OutOfRangeCol(c)
    } else {
        PositionOpError::FullCol(c)
    }
}

/// Law: replaying a legal move sequence of length `k` from the empty board
/// yields a well-formed position with exactly `k` moves played, and Red to
/// move exactly when `k` is even.
pub proof fn lemma_replay_round_trip(cols: Seq<usize>)
    requires
        seq_legal(cols),
    ensures
        board_after(cols).wf(),
        board_after(cols).moves == cols.len(),
        board_after(cols).turn == Color::Red <==> cols.len() % 2 == 0,
    decreases cols.len(),
{
    lemma_empty_wf();
    if cols.len() > 0 {
        let pre = cols.drop_last();
        assert forall|i: int| 0 <= i < pre.len() implies #[trigger] board_after(
            pre.take(i),
        ).legal(pre[i] as int) by {
            assert(pre.take(i) =~= cols.take(i));
            assert(board_after(cols.take(i)).legal(cols[i] as int));
        }
        lemma_replay_round_trip(pre);
        assert(cols.take(cols.len() - 1) =~= pre);
        assert(board_after(cols.take(cols.len() - 1)).legal(cols[cols.len() - 1] as int));
        lemma_play_wf(board_after(pre), cols.last() as int);
    }
}

/// Law: a full board has no winning move left, so exhausting all 42 cells
/// without a winner scores zero — the game is drawn.
pub proof fn lemma_full_board_draws(b: Board)
    requires
        b.wf(),
        b.moves == 42,
    ensures
        spec_score(b) == 0,
{
    if b.has_winning_move() {
        let c = choose|c: int| 0 <= c < 7 && #[trigger] b.wins(c);
        assert(b.legal(c));
        lemma_moves_bound(b);
    }
}

/// How a cached score relates to the exact score of its position.
enum Bound {
    Exact,
    Lower,
    Upper,
}

/// One transposition-cache entry: the position the score was computed for,
/// the score, and whether it is exact or a one-sided bound.
struct CacheEntry {
    pos: Position,
    score: i32,
    bound: Bound,
}

/// A truthful cache entry: its score relates to the exact score of its own
/// position as its bound kind claims.
spec fn entry_ok(e: CacheEntry) -> bool {
    &&& e.pos@.wf()
    &&& -21 <= e.score <= 21
    &&& match e.bound {
        Bound::Exact => spec_score(e.pos@) == e.score as int,
        Bound::Lower => spec_score(e.pos@) >= e.score as int,
        Bound::Upper => spec_score(e.pos@) <= e.score as int,
    }
}

/// Every entry of the transposition cache is truthful. Nothing is assumed
/// about the keys: a hit is used only after the stored position is compared
/// with the probed one.
spec fn cache_ok(m: Map<u64, CacheEntry>) -> bool {
    forall|key: u64| #[trigger] m.contains_key(key) ==> entry_ok(m[key])
}

/// The static center-first search order: column 3 first, then the outward
/// pairs.
pub open spec fn order_col(i: int) -> int {
    if i == 0 {
        3
    } else if i == 1 {
        2
    } else if i == 2 {
        4
    } else if i == 3 {
        1
    } else if i == 4 {
        5
    } else if i == 5 {
        0
    } else {
        6
    }
}

/// Stores a truthful entry for `pos` in the cache.
fn cache_store(cache: &mut HashMap<u64, CacheEntry>, key: u64, pos: &Position, score: i32, bound: Bound)
    requires
        cache_ok(old(cache)@),
        pos@.wf(),
        -21 <= score <= 21,
        match bound {
            Bound::Exact => spec_score(pos@) == score as int,
            Bound::Lower => spec_score(pos@) >= score as int,
            Bound::Upper => spec_score(pos@) <= score as int,
        },
    ensures
        cache_ok(final(cache)@),
{
    let entry = CacheEntry { pos: pos.clone(), score, bound };
    cache.insert(key, entry);
    proof {
        assert forall|k: u64| #[trigger] cache@.contains_key(k) implies entry_ok(cache@[k]) by {
            if k != key {
                assert(old(cache)@.contains_key(k));
            }
        }
    }
}

/// Negamax search of `pos` with the alpha-beta window `(alpha, beta)`, a
/// shared transposition cache, and center-first move ordering.
///
/// The result is trustworthy in the fail-soft sense: a result inside the
/// window is the exact score, a result at or below `alpha` is an upper bound
/// on it, and a result at or above `beta` is a lower bound on it. Pruning and
/// caching therefore never change the score seen at the root, only the work
/// spent.
fn negamax(pos: &Position, alpha: i32, beta: i32, cache: &mut HashMap<u64, CacheEntry>) -> (r: i32)
    requires
        pos@.wf(),
        -50 <= alpha,
        alpha < beta,
        beta <= 50,
        cache_ok(old(cache)@),
    ensures
        cache_ok(final(cache)@),
        -21 <= r <= 21,
        r < beta ==> spec_score(pos@) <= r as int,
        r > alpha ==> spec_score(pos@) >= r as int,
    decreases 42 - pos@.moves,
{
    proof {
        lemma_moves_bound(pos@);
    }
    let m = pos.num_moves_played();
    // A one-move win dominates any deeper search: return its score at once.
    let mut c: usize = 0;
    while c < 7
        invariant
            pos@.wf(),
            cache_ok(cache@),
            m as int == pos@.moves,
            0 <= pos@.moves <= 42,
            c <= 7,
            forall|cc: int| 0 <= cc < c ==> !(#[trigger] pos@.wins(cc)),
        decreases 7 - c,
    {
        if pos.move_wins(c) {
            proof {
                assert(pos@.has_winning_move());
                assert(pos@.legal(c as int));
                lemma_moves_bound(pos@);
            }
            let score = (43 - m as i32) / 2;
            return score;
        }
        c += 1;
    }
    proof {
        assert(!pos@.has_winning_move());
    }
    // A full board without a winning move is a draw.
    if m == 42 {
        return 0;
    }
    proof {
        lemma_exists_legal(pos@);
        lemma_best_score_props(pos@, 7);
    }
    // Probe the transposition cache; trust a hit only for the same board.
    let key = pos.cache_key();
    match cache.get(&key) {
        Some(entry) => {
            if entry.pos.same_as(pos) {
                let s = entry.score;
                match entry.bound {
                    Bound::Exact => {
                        return s;
                    },
                    Bound::Lower => {
                        if s >= beta {
                            return s;
                        }
                    },
                    Bound::Upper => {
                        if s <= alpha {
                            return s;
                        }
                    },
                }
            }
        },
        None => {},
    }
    // Search the columns center first, narrowing the window as scores come in.
    let ghost b = pos@;
    let mut best: i32 = -50;
    let mut a = alpha;
    let mut idx: usize = 0;
    while idx < 7
        invariant
            pos@.wf(),
            b == pos@,
            b.moves < 42,
            !b.has_winning_move(),
            cache_ok(cache@),
            idx <= 7,
            -50 <= alpha,
            alpha < beta,
            beta <= 50,
            alpha <= a,
            a < beta,
            a == (if best > alpha {
                best
            } else {
                alpha
            }),
            best == -50 || (-21 <= best && best <= 21),
            best < beta,
            forall|i: int|
                0 <= i < idx && #[trigger] b.legal(order_col(i)) ==> -spec_score(
                    b.play(order_col(i)),
                ) <= best as int,
            (best > alpha ==> exists|i: int|
                0 <= i < idx && #[trigger] b.legal(order_col(i)) && -spec_score(
                    b.play(order_col(i)),
                ) >= best as int),
        decreases 7 - idx,
    {
        let col: usize = match idx {
            0 => 3,
            1 => 2,
            2 => 4,
            3 => 1,
            4 => 5,
            5 => 0,
            _ => 6,
        };
        proof {
            assert(col as int == order_col(idx as int));
        }
        let mut child = pos.clone();
        let played = child.play_col(col);
        if played.is_ok() {
            proof {
                assert(b.legal(col as int));
                assert(child@ == b.play(col as int));
                lemma_play_wf(b, col as int);
            }
            let neg = negamax(&child, -beta, -a, cache);
            let val = -neg;
            proof {
                if val < beta {
                    assert(neg > -beta);
                    assert(spec_score(child@) >= neg as int);
                }
                if val > a {
                    assert(neg < -a);
                    assert(spec_score(child@) <= neg as int);
                }
            }
            let ghost old_best = best;
            if val > best {
                best = val;
            }
            if best > a {
                a = best;
            }
            proof {
                assert forall|i: int|
                    0 <= i < idx as int + 1 && #[trigger] b.legal(order_col(i)) implies -spec_score(
                    b.play(order_col(i)),
                ) <= best as int || best >= beta by {
                    if i < idx as int {
                        assert(-spec_score(b.play(order_col(i))) <= old_best as int);
                    } else {
                        assert(order_col(i) == col as int);
                        if val < beta {
                            assert(-spec_score(b.play(col as int)) <= val as int);
                        } else {
                            assert(best >= val >= beta);
                        }
                    }
                }
                if best > alpha {
                    if old_best == best {
                        assert(old_best > alpha);
                    } else {
                        assert(best == val);
                        if val > alpha && val <= (if old_best > alpha {
                            old_best
                        } else {
                            alpha
                        }) {
                            assert(old_best > alpha && val <= old_best);
                            assert(false);
                        }
                        assert(-spec_score(b.play(order_col(idx as int))) >= best as int);
                    }
                }
            }
            if a >= beta {
                proof {
                    lemma_best_score_props(b, 7);
                    assert(best >= beta);
                    assert(best > alpha);
                    assert(best == val);
                    assert(b.legal(order_col(idx as int)));
                    assert(-spec_score(b.play(order_col(idx as int))) >= best as int);
                    assert(-spec_score(b.play(order_col(idx as int))) <= best_score(b, 7));
                    assert(spec_score(b) == best_score(b, 7));
                    assert(spec_score(b) >= best as int);
                }
                cache_store(cache, key, pos, best, Bound::Lower);
                return best;
            }
        }
        idx += 1;
    }
    proof {
        lemma_exists_legal(b);
        lemma_best_score_props(b, 7);
        // The move order visits every column, so every legal reply was tried.
        assert(order_col(5) == 0 && order_col(3) == 1 && order_col(1) == 2 && order_col(0) == 3
            && order_col(2) == 4 && order_col(4) == 5 && order_col(6) == 6);
        assert forall|c: int| 0 <= c < 7 && #[trigger] b.legal(c) implies -spec_score(
            b.play(c),
        ) <= best as int by {
            let i: int = if c == 0 {
                5
            } else if c == 1 {
                3
            } else if c == 2 {
                1
            } else if c == 3 {
                0
            } else if c == 4 {
                2
            } else if c == 5 {
                4
            } else {
                6
            };
            assert(order_col(i) == c);
            assert(b.legal(order_col(i)));
        }
        let cl = choose|c: int| 0 <= c < 7 && #[trigger] b.legal(c);
        assert(-spec_score(b.play(cl)) <= best as int);
        lemma_play_wf(b, cl);
        lemma_score_bounds(b.play(cl));
        assert(best as int >= -21);
        assert(spec_score(b) == best_score(b, 7));
        assert(best_score(b, 7) != -100);
        assert(spec_score(b) <= best as int);
        if best > alpha {
            let i = choose|i: int|
                0 <= i < 7 && #[trigger] b.legal(order_col(i)) && -spec_score(
                    b.play(order_col(i)),
                ) >= best as int;
            assert(-spec_score(b.play(order_col(i))) <= best_score(b, 7));
        }
    }
    if best <= alpha {
        cache_store(cache, key, pos, best, Bound::Upper);
    } else {
        cache_store(cache, key, pos, best, Bound::Exact);
    }
    best
}

/// A struct for solving Connect 4 positions.
pub struct Solver;

impl Solver {
    /// Computes the exact score of a position: the negamax value of the board
    /// under perfect play by both sides.
    ///
    /// The result equals `spec_score` of the board alone, so scoring the same
    /// position twice — each search starts from a fresh transposition cache —
    /// returns the same value, whatever the move-ordering heuristic does.
    pub fn score_position(&self, pos: &Position) -> (r: i32)
        requires
            pos@.wf(),
        ensures
            r as int == spec_score(pos@),
            -21 <= r <= 21,
    {
        let mut cache: HashMap<u64, CacheEntry> = HashMap::new();
        let r = negamax(pos, -50, 50, &mut cache);
        r
    }

    /// Replays the column sequence from the empty board and computes the exact
    /// score of the resulting position for the side then to move.
    ///
    /// Replay stops at the first illegal move: the result is then an
    /// `InvalidSequence` error wrapping the underlying legality error, the
    /// sequence, and the index at which it occurred.
    pub fn solve_sequence(&self, cols: &Vec<usize>) -> (r: Result<i32, PositionOpError>)
        ensures
            match r {
                Ok(s) => seq_legal(cols@) && s as int == spec_score(board_after(cols@)),
                Err(e) => !seq_legal(cols@) && (e matches PositionOpError::InvalidSequence {
                    source,
                    seq,
                    bad_idx,
                } && {
                    &&& (bad_idx as int) < cols@.len()
                    &&& prefix_legal(cols@, bad_idx as int)
                    &&& !board_after(cols@.take(bad_idx as int)).legal(
                        cols@[bad_idx as int] as int,
                    )
                    &&& seq@ == cols@
                    &&& *source == leaf_error(cols@[bad_idx as int])
                }),
            },
    {
        let mut pos = Position::empty();
        let mut i: usize = 0;
        while i < cols.len()
            invariant
                pos@.wf(),
                i <= cols@.len(),
                prefix_legal(cols@, i as int),
                pos@ == board_after(cols@.take(i as int)),
            decreases cols@.len() - i,
        {
            let c = cols[i];
            let ghost before = pos@;
            match pos.play_col(c) {
                Ok(()) => {
                    proof {
                        assert(before.legal(c as int));
                        assert(cols@.take(i as int + 1).drop_last() =~= cols@.take(i as int));
                        assert(cols@.take(i as int + 1).last() == cols@[i as int]);
                        assert(pos@ == board_after(cols@.take(i as int + 1)));
                        assert forall|j: int| 0 <= j < i as int + 1 implies #[trigger] board_after(
                            cols@.take(j),
                        ).legal(cols@[j] as int) by {
                            if j == i as int {
                                assert(board_after(cols@.take(i as int)).legal(
                                    cols@[i as int] as int,
                                ));
                            }
                        }
                    }
                },
                Err(leaf) => {
                    proof {
                        assert(!before.legal(c as int));
                        assert(leaf == leaf_error(c));
                        if seq_legal(cols@) {
                            assert(board_after(cols@.take(i as int)).legal(cols@[i as int] as int));
                        }
                    }
                    return Err(
                        PositionOpError::InvalidSequence {
                            source: Box::new(leaf),
                            seq: copy_vec(cols),
                            bad_idx: i,
                        },
                    );
                },
            }
            i += 1;
        }
        proof {
            assert(cols@.take(cols@.len() as int) =~= cols@);
        }
        let s = self.score_position(&pos);
        Ok(s)
    }
}

} // verus!
