//! Fixed-depth negamax search with alpha-beta pruning over the legal-move
//! tree. The contracts pin the terminal scores, keep every arithmetic step
//! away from overflow, and guarantee that whatever move comes back is
//! legal in the searched position.

use vstd::prelude::*;
use crate::evaluation::Evaluator;
use crate::legal::legal_move_ok;
use crate::legal::counters_ok;
use crate::legal::lemma_pseudo_make_safe;
use crate::model::board_ok;
use crate::position::BitboardBoard;
use crate::types::Move;

verus! {

/// How many plies the fixed-depth search explores.
pub const SEARCH_DEPTH: u8 = 4;

/// A strategy that picks a move for the side to move, or reports that no
/// legal move exists.
pub trait Searcher {
    /// Some legal move of the position, or none exactly when the position
    /// is terminal.
    fn search<E: Evaluator>(&self, board: &BitboardBoard, evaluator: &E) -> (r: Option<Move>)
        requires
            board_ok(board@),
            board@.halfmove + SEARCH_DEPTH < 256,
            board@.fullmove + SEARCH_DEPTH < 65536,
        ensures
            match r {
                Some(mv) => legal_move_ok(board@, mv),
                None => forall|mv: Move| !legal_move_ok(board@, mv),
            },
    ;
}

/// Depth-limited negamax with alpha-beta pruning, captures tried first.
pub struct AlphaBetaSearcher;

/// The input moves reordered so that captures come first; length and
/// membership are preserved.
fn order_captures_first(moves: &Vec<Move>) -> (r: Vec<Move>)
    ensures
        r@.len() == moves@.len(),
        forall|j: int| 0 <= j < r@.len() ==> moves@.contains(#[trigger] r@[j]),
{
    let mut ordered: Vec<Move> = Vec::new();
    let mut i: usize = 0;
    while i < moves.len()
        invariant
            0 <= i <= moves@.len(),
            ordered@.len() <= i,
            forall|j: int| 0 <= j < ordered@.len() ==> moves@.contains(#[trigger] ordered@[j]),
            ordered@.len() == count_captures(moves@, i as int),
        decreases moves@.len() - i,
    {
        let mv = moves[i];
        if mv.captures.is_some() {
            proof {
                assert(moves@[i as int] == mv);
            }
            ordered.push(mv);
        }
        i = i + 1;
    }
    let mut k: usize = 0;
    while k < moves.len()
        invariant
            0 <= k <= moves@.len(),
            forall|j: int| 0 <= j < ordered@.len() ==> moves@.contains(#[trigger] ordered@[j]),
            ordered@.len() == count_captures(moves@, moves@.len() as int) + count_quiet(
                moves@,
                k as int,
            ),
        decreases moves@.len() - k,
    {
        let mv = moves[k];
        if !mv.captures.is_some() {
            proof {
                assert(moves@[k as int] == mv);
            }
            ordered.push(mv);
        }
        k = k + 1;
    }
    proof {
        lemma_capture_counts(moves@, moves@.len() as int);
    }
    ordered
}

/// How many of the first `n` moves capture.
pub open spec fn count_captures(s: Seq<Move>, n: int) -> int
    decreases n,
{
    if n <= 0 {
        0
    } else {
        count_captures(s, n - 1) + (if s[n - 1].captures is Some {
            1int
        } else {
            0int
        })
    }
}

/// How many of the first `n` moves do not capture.
pub open spec fn count_quiet(s: Seq<Move>, n: int) -> int
    decreases n,
{
    if n <= 0 {
        0
    } else {
        count_quiet(s, n - 1) + (if s[n - 1].captures is Some {
            0int
        } else {
            1int
        })
    }
}

/// Captures and non-captures together account for every move.
proof fn lemma_capture_counts(s: Seq<Move>, n: int)
    requires
        0 <= n <= s.len(),
    ensures
        count_captures(s, n) + count_quiet(s, n) == n,
    decreases n,
{
    if n > 0 {
        lemma_capture_counts(s, n - 1);
    }
}

impl Searcher for AlphaBetaSearcher {
    fn search<E: Evaluator>(&self, board: &BitboardBoard, evaluator: &E) -> (r: Option<Move>) {
        let ghost m = board@;
        let mut best_move: Option<Move> = None;
        let mut best_score: i32 = -i32::MAX;
        let mut alpha: i32 = -i32::MAX;
        let beta: i32 = i32::MAX;

        let moves = board.generate_moves();
        let ordered = order_captures_first(&moves);

        let mut idx: usize = 0;
        while idx < ordered.len()
            invariant
                board_ok(board@),
                m == board@,
                m.halfmove + SEARCH_DEPTH < 256,
                m.fullmove + SEARCH_DEPTH < 65536,
                0 <= idx <= ordered@.len(),
                forall|mv: Move| #[trigger] moves@.contains(mv) <==> legal_move_ok(m, mv),
                forall|j: int| 0 <= j < ordered@.len() ==> moves@.contains(#[trigger] ordered@[j]),
                -i32::MAX <= alpha <= beta,
                beta == i32::MAX,
                -i32::MAX <= best_score,
                match best_move {
                    Some(mv) => legal_move_ok(m, mv),
                    None => idx == 0,
                },
            decreases ordered@.len() - idx,
        {
            let mv = ordered[idx];
            proof {
                assert(moves@.contains(mv));
                assert(counters_ok(m));
                lemma_pseudo_make_safe(m, mv);
            }
            let mut new_board = board.clone();
            new_board.make_move(&mv);
            new_board.switch_side();
            let score = -self.alphabeta(&new_board, evaluator, SEARCH_DEPTH - 1, -beta, -alpha);
            if best_move.is_none() || score > best_score {
                best_score = score;
                best_move = Some(mv);
            }
            if best_score > alpha {
                alpha = best_score;
            }
            idx = idx + 1;
        }

        proof {
            if best_move is None {
                assert(ordered@.len() == 0);
                assert forall|mv: Move| !legal_move_ok(m, mv) by {
                    if legal_move_ok(m, mv) {
                        assert(moves@.contains(mv));
                        let j = choose|j: int| 0 <= j < moves@.len() && moves@[j] == mv;
                        assert(moves@.len() > 0);
                        assert(ordered@.len() == moves@.len());
                    }
                }
            }
        }
        best_move
    }
}

impl AlphaBetaSearcher {
    /// Negamax over the legal moves: at depth zero the static score, at a
    /// terminal node the mate or stalemate score, and otherwise the best
    /// child score negated, cut off once it reaches `beta`.
    pub fn alphabeta<E: Evaluator>(
        &self,
        board: &BitboardBoard,
        evaluator: &E,
        depth: u8,
        alpha: i32,
        beta: i32,
    ) -> (r: i32)
        requires
            board_ok(board@),
            board@.halfmove + depth < 256,
            board@.fullmove + depth < 65536,
            -i32::MAX <= alpha <= beta <= i32::MAX,
        ensures
            -i32::MAX <= r <= i32::MAX,
            depth == 0 ==> r == evaluator.score_spec(board@),
            depth > 0 && (forall|mv: Move| !legal_move_ok(board@, mv)) ==> r == (
            if crate::attacks::in_check_spec(board@, board@.side) {
                -i32::MAX + 100
            } else {
                0
            }),
        decreases depth,
    {
        let ghost m = board@;
        if depth == 0 {
            return evaluator.evaluate(board);
        }

        let moves = board.generate_moves();
        if moves.len() == 0 {
            if board.is_in_check(board.side_to_move()) {
                return -i32::MAX + 100;
            } else {
                return 0;
            }
        }
        proof {
            assert(moves@.contains(moves@[0]));
            assert(legal_move_ok(m, moves@[0]));
        }

        let ordered = order_captures_first(&moves);
        let mut cur_alpha: i32 = alpha;

        let mut idx: usize = 0;
        while idx < ordered.len()
            invariant
                board_ok(board@),
                m == board@,
                m.halfmove + depth < 256,
                m.fullmove + depth < 65536,
                depth >= 1,
                0 <= idx <= ordered@.len(),
                forall|mv: Move| #[trigger] moves@.contains(mv) <==> legal_move_ok(m, mv),
                forall|j: int| 0 <= j < ordered@.len() ==> moves@.contains(#[trigger] ordered@[j]),
                -i32::MAX <= cur_alpha <= beta <= i32::MAX,
            decreases ordered@.len() - idx,
        {
            let mv = ordered[idx];
            proof {
                assert(moves@.contains(mv));
                assert(counters_ok(m));
                lemma_pseudo_make_safe(m, mv);
            }
            let mut new_board = board.clone();
            new_board.make_move(&mv);
            new_board.switch_side();
            let score = -self.alphabeta(
                &new_board,
                evaluator,
                depth - 1,
                -beta,
                -cur_alpha,
            );
            if score >= beta {
                return beta;
            }
            if score > cur_alpha {
                cur_alpha = score;
            }
            idx = idx + 1;
        }

        cur_alpha
    }
}

} // verus!
