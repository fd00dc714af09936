//! Static evaluation: material count plus piece-square tables, positive
//! favoring White before the final negation that makes every score
//! relative to the side to move.

use vstd::prelude::*;
use crate::bits::bit64;
use crate::bits::count_bits;
use crate::bits::lemma_popcnt_bound;
use crate::bits::popcnt;
use crate::model::board_ok;
use crate::model::BoardModel;
use crate::position::BitboardBoard;
use crate::types::Color;

verus! {

/// Every score this evaluator produces stays within this bound.
pub const EVAL_BOUND: i32 = 2000000;

const PAWN_VALUE: i32 = 100;

const KNIGHT_VALUE: i32 = 320;

const BISHOP_VALUE: i32 = 330;

const ROOK_VALUE: i32 = 500;

const QUEEN_VALUE: i32 = 900;

const KING_VALUE: i32 = 20000;

pub const PAWN_PST: [i32; 64] = [
    0, 0, 0, 0, 0, 0, 0, 0, 50, 50, 50, 50, 50, 50, 50, 50, 10, 10, 20, 30, 30, 20, 10, 10, 5, 5,
    10, 25, 25, 10, 5, 5, 0, 0, 0, 20, 20, 0, 0, 0, 5, -5, -10, 0, 0, -10, -5, 5, 5, 10, 10, -20,
    -20, 10, 10, 5, 0, 0, 0, 0, 0, 0, 0, 0,
];

pub const KNIGHT_PST: [i32; 64] = [
    -50, -40, -30, -30, -30, -30, -40, -50, -40, -20, 0, 0, 0, 0, -20, -40, -30, 0, 10, 15, 15,
    10, 0, -30, -30, 5, 15, 20, 20, 15, 5, -30, -30, 0, 15, 20, 20, 15, 0, -30, -30, 5, 10, 15,
    15, 10, 5, -30, -40, -20, 0, 5, 5, 0, -20, -40, -50, -40, -30, -30, -30, -30, -40, -50,
];

pub const BISHOP_PST: [i32; 64] = [
    -20, -10, -10, -10, -10, -10, -10, -20, -10, 0, 0, 0, 0, 0, 0, -10, -10, 0, 5, 10, 10, 5, 0,
    -10, -10, 5, 5, 10, 10, 5, 5, -10, -10, 0, 10, 10, 10, 10, 0, -10, -10, 10, 10, 10, 10, 10,
    10, -10, -10, 5, 0, 0, 0, 0, 5, -10, -20, -10, -10, -10, -10, -10, -10, -20,
];

pub const ROOK_PST: [i32; 64] = [
    0, 0, 0, 0, 0, 0, 0, 0, 5, 10, 10, 10, 10, 10, 10, 5, -5, 0, 0, 0, 0, 0, 0, -5, -5, 0, 0, 0,
    0, 0, 0, -5, -5, 0, 0, 0, 0, 0, 0, -5, -5, 0, 0, 0, 0, 0, 0, -5, -5, 0, 0, 0, 0, 0, 0, -5, 0,
    0, 0, 5, 5, 0, 0, 0,
];

pub const QUEEN_PST: [i32; 64] = [
    -20, -10, -10, -5, -5, -10, -10, -20, -10, 0, 0, 0, 0, 0, 0, -10, -10, 0, 5, 5, 5, 5, 0, -10,
    -5, 0, 5, 5, 5, 5, 0, -5, 0, 0, 5, 5, 5, 5, 0, -5, -10, 5, 5, 5, 5, 5, 0, -10, -10, 0, 5, 0,
    0, 0, 0, -10, -20, -10, -10, -5, -5, -10, -10, -20,
];

pub const KING_PST: [i32; 64] = [
    -30, -40, -40, -50, -50, -40, -40, -30, -30, -40, -40, -50, -50, -40, -40, -30, -30, -40, -40,
    -50, -50, -40, -40, -30, -30, -40, -40, -50, -50, -40, -40, -30, -20, -30, -30, -40, -40, -30,
    -30, -20, -10, -20, -20, -20, -20, -20, -20, -10, 20, 20, 0, 0, 0, 0, 20, 20, 20, 30, 10, 0,
    0, 10, 30, 20,
];

/// The table slot a piece on square `s` reads: White reads the table from
/// its own side, Black reads it mirrored.
pub open spec fn pst_index(c: Color, s: int) -> int {
    match c {
        Color::White => s,
        Color::Black => 63 - s,
    }
}

/// The table values of the squares below `n` held by the piece set `bb`.
pub open spec fn pst_sum(bb: u64, pst: [i32; 64], c: Color, n: int) -> int
    decreases n,
{
    if n <= 0 {
        0
    } else {
        pst_sum(bb, pst, c, n - 1) + (if bit64(bb, n - 1) {
            pst[pst_index(c, n - 1)] as int
        } else {
            0
        })
    }
}

/// The material balance: piece counts weighted by the fixed values,
/// White minus Black.
pub open spec fn material_spec(m: BoardModel) -> int {
    popcnt(m.bbs[0]) * 100 + popcnt(m.bbs[1]) * 320 + popcnt(m.bbs[2]) * 330 + popcnt(m.bbs[3])
        * 500 + popcnt(m.bbs[4]) * 900 + popcnt(m.bbs[5]) * 20000 - popcnt(m.bbs[6]) * 100
        - popcnt(m.bbs[7]) * 320 - popcnt(m.bbs[8]) * 330 - popcnt(m.bbs[9]) * 500 - popcnt(
        m.bbs[10],
    ) * 900 - popcnt(m.bbs[11]) * 20000
}

/// The placement balance: each piece's table value, White minus Black.
pub open spec fn pst_spec(m: BoardModel) -> int {
    pst_sum(m.bbs[0], PAWN_PST, Color::White, 64) + pst_sum(m.bbs[1], KNIGHT_PST, Color::White, 64)
        + pst_sum(m.bbs[2], BISHOP_PST, Color::White, 64) + pst_sum(
        m.bbs[3],
        ROOK_PST,
        Color::White,
        64,
    ) + pst_sum(m.bbs[4], QUEEN_PST, Color::White, 64) + pst_sum(
        m.bbs[5],
        KING_PST,
        Color::White,
        64,
    ) - pst_sum(m.bbs[6], PAWN_PST, Color::Black, 64) - pst_sum(
        m.bbs[7],
        KNIGHT_PST,
        Color::Black,
        64,
    ) - pst_sum(m.bbs[8], BISHOP_PST, Color::Black, 64) - pst_sum(
        m.bbs[9],
        ROOK_PST,
        Color::Black,
        64,
    ) - pst_sum(m.bbs[10], QUEEN_PST, Color::Black, 64) - pst_sum(
        m.bbs[11],
        KING_PST,
        Color::Black,
        64,
    )
}

/// The full static score, from the side to move's point of view.
pub open spec fn eval_spec(m: BoardModel) -> int {
    let s = material_spec(m) + pst_spec(m);
    match m.side {
        Color::White => s,
        Color::Black => -s,
    }
}

/// A partial table sum stays within 50 points per square counted.
proof fn lemma_pst_sum_bound(bb: u64, pst: [i32; 64], c: Color, n: int)
    requires
        0 <= n <= 64,
        forall|k: int| 0 <= k < 64 ==> -50 <= #[trigger] pst[k] <= 50,
    ensures
        -50 * n <= pst_sum(bb, pst, c, n) <= 50 * n,
    decreases n,
{
    if n > 0 {
        lemma_pst_sum_bound(bb, pst, c, n - 1);
    }
}

/// The capability the search consumes: one bounded score per position,
/// a pure function of the position named by `score_spec`.
pub trait Evaluator {
    /// What this evaluator's score of a position is.
    spec fn score_spec(&self, m: BoardModel) -> int;

    /// A score for the position, from the side to move's point of view.
    fn evaluate(&self, board: &BitboardBoard) -> (r: i32)
        requires
            board_ok(board@),
        ensures
            r == self.score_spec(board@),
            -EVAL_BOUND <= r <= EVAL_BOUND,
    ;
}

/// Material plus piece-square tables, nothing else.
pub struct SimpleEvaluator;

impl Evaluator for SimpleEvaluator {
    /// The score this evaluator assigns: [`eval_spec`].
    open spec fn score_spec(&self, m: BoardModel) -> int {
        eval_spec(m)
    }

    /// Exactly the material balance plus the table balance, negated for
    /// Black so that a positive score favors the side to move.
    fn evaluate(&self, board: &BitboardBoard) -> (r: i32)
        ensures
            r == eval_spec(board@),
    {
        let mut score: i32 = 0;
        score = score + self.evaluate_material(board);
        score = score + self.evaluate_pst(board);

        if board.side_to_move() == Color::White {
            score
        } else {
            -score
        }
    }
}

impl SimpleEvaluator {
    /// The material balance.
    fn evaluate_material(&self, board: &BitboardBoard) -> (r: i32)
        requires
            board_ok(board@),
        ensures
            r == material_spec(board@),
            -1500000 <= r <= 1500000,
    {
        proof {
            lemma_popcnt_bound(board@.bbs[0]);
            lemma_popcnt_bound(board@.bbs[1]);
            lemma_popcnt_bound(board@.bbs[2]);
            lemma_popcnt_bound(board@.bbs[3]);
            lemma_popcnt_bound(board@.bbs[4]);
            lemma_popcnt_bound(board@.bbs[5]);
            lemma_popcnt_bound(board@.bbs[6]);
            lemma_popcnt_bound(board@.bbs[7]);
            lemma_popcnt_bound(board@.bbs[8]);
            lemma_popcnt_bound(board@.bbs[9]);
            lemma_popcnt_bound(board@.bbs[10]);
            lemma_popcnt_bound(board@.bbs[11]);
        }
        let mut score: i32 = 0;
        score = score + (count_bits(board.bitboard(0)) as i32) * PAWN_VALUE;
        score = score + (count_bits(board.bitboard(1)) as i32) * KNIGHT_VALUE;
        score = score + (count_bits(board.bitboard(2)) as i32) * BISHOP_VALUE;
        score = score + (count_bits(board.bitboard(3)) as i32) * ROOK_VALUE;
        score = score + (count_bits(board.bitboard(4)) as i32) * QUEEN_VALUE;
        score = score + (count_bits(board.bitboard(5)) as i32) * KING_VALUE;

        score = score - (count_bits(board.bitboard(6)) as i32) * PAWN_VALUE;
        score = score - (count_bits(board.bitboard(7)) as i32) * KNIGHT_VALUE;
        score = score - (count_bits(board.bitboard(8)) as i32) * BISHOP_VALUE;
        score = score - (count_bits(board.bitboard(9)) as i32) * ROOK_VALUE;
        score = score - (count_bits(board.bitboard(10)) as i32) * QUEEN_VALUE;
        score = score - (count_bits(board.bitboard(11)) as i32) * KING_VALUE;
        score
    }

    /// The placement balance.
    fn evaluate_pst(&self, board: &BitboardBoard) -> (r: i32)
        requires
            board_ok(board@),
        ensures
            r == pst_spec(board@),
            -40000 <= r <= 40000,
    {
        let mut score: i32 = 0;
        score = score + self.evaluate_pst_for_piece(board.bitboard(0), &PAWN_PST, Color::White);
        score = score + self.evaluate_pst_for_piece(board.bitboard(1), &KNIGHT_PST, Color::White);
        score = score + self.evaluate_pst_for_piece(board.bitboard(2), &BISHOP_PST, Color::White);
        score = score + self.evaluate_pst_for_piece(board.bitboard(3), &ROOK_PST, Color::White);
        score = score + self.evaluate_pst_for_piece(board.bitboard(4), &QUEEN_PST, Color::White);
        score = score + self.evaluate_pst_for_piece(board.bitboard(5), &KING_PST, Color::White);

        score = score - self.evaluate_pst_for_piece(board.bitboard(6), &PAWN_PST, Color::Black);
        score = score - self.evaluate_pst_for_piece(board.bitboard(7), &KNIGHT_PST, Color::Black);
        score = score - self.evaluate_pst_for_piece(board.bitboard(8), &BISHOP_PST, Color::Black);
        score = score - self.evaluate_pst_for_piece(board.bitboard(9), &ROOK_PST, Color::Black);
        score = score - self.evaluate_pst_for_piece(board.bitboard(10), &QUEEN_PST, Color::Black);
        score = score - self.evaluate_pst_for_piece(board.bitboard(11), &KING_PST, Color::Black);
        score
    }

    /// The table values of the squares one piece set occupies.
    fn evaluate_pst_for_piece(&self, bitboard: u64, pst: &[i32; 64], color: Color) -> (r: i32)
        requires
            forall|k: int| 0 <= k < 64 ==> -50 <= #[trigger] pst[k] <= 50,
        ensures
            r == pst_sum(bitboard, *pst, color, 64),
            -3200 <= r <= 3200,
    {
        let mut score: i32 = 0;
        let mut s: usize = 0;
        while s < 64
            invariant
                0 <= s <= 64,
                forall|k: int| 0 <= k < 64 ==> -50 <= #[trigger] pst[k] <= 50,
                score == pst_sum(bitboard, *pst, color, s as int),
                -50 * s <= score <= 50 * s,
            decreases 64 - s,
        {
            proof {
                crate::bits::lemma_mask_test(bitboard, s as int);
            }
            if bitboard & (1u64 << (s as u64)) != 0 {
                let idx: usize = match color {
                    Color::White => s,
                    Color::Black => 63 - s,
                };
                score = score + pst[idx];
            }
            s = s + 1;
        }
        score
    }
}

} // verus!
