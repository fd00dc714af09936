//! The legality filter: a pseudo-legal move is kept exactly when playing
//! it leaves the mover's own king unattacked, with the additional
//! path-safety rule for a castling king.

use vstd::prelude::*;
use crate::attacks::attacked;
use crate::attacks::in_check_spec;
use crate::attacks::lemma_coords_rev;
use crate::bits::bit64;
use crate::bits::lemma_mask_test;
use crate::model::board_ok;
use crate::model::is_castle_shape;
use crate::model::spec_make;
use crate::model::make_safe;
use crate::movegen::pseudo_move_ok;
use crate::movegen::BitboardMoveGenerator;
use crate::movegen::NaiveMoveGenerator;
use crate::position::BitboardBoard;
use crate::types::flip_color;
use crate::types::Color;
use crate::types::Move;
use crate::types::PieceKind;
use crate::model::BoardModel;

verus! {

/// Counters with room to advance: what one more applied move needs.
pub open spec fn counters_ok(m: BoardModel) -> bool {
    &&& m.halfmove < 255
    &&& (m.side == Color::Black ==> m.fullmove < 65535)
}

/// Applying `mv` leaves the mover's own king out of check.
pub open spec fn king_safe_after(m: BoardModel, mv: Move) -> bool {
    !in_check_spec(spec_make(m, mv), m.side)
}

/// Every square of the king's castling path, endpoints included, is free
/// of enemy attack.
pub open spec fn castle_path_clear(m: BoardModel, mv: Move) -> bool {
    forall|s: int|
        (if mv.from.0 <= mv.to.0 {
            mv.from.0 <= s <= mv.to.0
        } else {
            mv.to.0 <= s <= mv.from.0
        }) ==> !attacked(m, flip_color(m.side), s)
}

/// A legal move: pseudo-legal, king-safe, and path-safe when castling.
pub open spec fn legal_move_ok(m: BoardModel, mv: Move) -> bool {
    &&& pseudo_move_ok(m, m.side, mv)
    &&& king_safe_after(m, mv)
    &&& (is_castle_shape(mv) ==> castle_path_clear(m, mv))
}

/// Every pseudo-legal move of a position whose counters leave room can be
/// applied: its squares are on the board, a castle starts at the king's
/// home square, and a capture is removed from a board square.
pub proof fn lemma_pseudo_make_safe(m: BoardModel, mv: Move)
    requires
        board_ok(m),
        counters_ok(m),
        pseudo_move_ok(m, m.side, mv),
    ensures
        make_safe(m, mv),
{
    let c = m.side;
    let f = mv.from.0 as int;
    let t = mv.to.0 as int;
    if is_castle_shape(mv) {
        crate::movegen::lemma_king_step_never_two(f, t);
        assert(crate::movegen::castle_move_ok(m, c, f, mv));
        assert(mv.from.0 == 4 || mv.from.0 == 60);
    }
    if crate::model::is_ep_capture(m.ep, mv) {
        assert(mv.piece.kind == PieceKind::Pawn && mv.captures is Some);
        assert(crate::attacks::pawn_attack(c, f, t));
        lemma_coords_rev(f, t);
        match c {
            Color::White => {
                assert(crate::types::sq_rank(t) >= 1);
                assert(t >= 8);
            },
            Color::Black => {
                assert(crate::types::sq_rank(t) <= 6);
                assert(t < 56);
            },
        }
    }
}

impl BitboardBoard {
    /// Every legal move of the side to move, each exactly once: the
    /// pseudo-legal moves that leave the mover's own king unattacked.
    pub fn generate_moves(&self) -> (r: Vec<Move>)
        requires
            board_ok(self@),
            counters_ok(self@),
        ensures
            forall|mv: Move| #[trigger] r@.contains(mv) <==> legal_move_ok(self@, mv),
            r@.no_duplicates(),
    {
        let ghost m = self@;
        let generator = NaiveMoveGenerator::new();
        let pseudo_legal_moves = generator.generate_moves(self);
        let mut legal_moves: Vec<Move> = Vec::new();

        let mut idx: usize = 0;
        while idx < pseudo_legal_moves.len()
            invariant
                board_ok(self@),
                counters_ok(self@),
                m == self@,
                0 <= idx <= pseudo_legal_moves@.len(),
                forall|mv: Move| #[trigger]
                    pseudo_legal_moves@.contains(mv) <==> pseudo_move_ok(m, m.side, mv),
                pseudo_legal_moves@.no_duplicates(),
                forall|mv: Move| #[trigger]
                    legal_moves@.contains(mv) <==> (pseudo_legal_moves@.subrange(
                        0,
                        idx as int,
                    ).contains(mv) && legal_move_ok(m, mv)),
                legal_moves@.no_duplicates(),
            decreases pseudo_legal_moves@.len() - idx,
        {
            let mv = pseudo_legal_moves[idx];
            proof {
                assert(pseudo_legal_moves@.contains(mv));
                lemma_pseudo_make_safe(m, mv);
            }
            let ghost before = legal_moves@;
            let mut board_clone = self.clone();
            board_clone.make_move(&mv);

            if !board_clone.is_in_check(self.side_to_move()) {
                if mv.piece.kind == PieceKind::King && (mv.to.0 == mv.from.0 + 2 || mv.to.0 + 2
                    == mv.from.0) {
                    let mut is_legal = true;
                    let (start, end) = if mv.to.0 > mv.from.0 {
                        (mv.from.0, mv.to.0)
                    } else {
                        (mv.to.0, mv.from.0)
                    };
                    let attack_map = self.generate_attack_map(self.side_to_move().opposite());
                    let mut s: u8 = start;
                    while s <= end
                        invariant
                            start <= s <= end + 1,
                            end < 64,
                            forall|q: int|
                                bit64(attack_map, q) <==> attacked(m, flip_color(m.side), q),
                            is_legal == (forall|q: int|
                                start <= q < s ==> !attacked(m, flip_color(m.side), q)),
                        decreases 64 - s,
                    {
                        proof {
                            lemma_mask_test(attack_map, s as int);
                        }
                        if (attack_map & (1u64 << (s as u64))) != 0 {
                            is_legal = false;
                        }
                        s = s + 1;
                    }
                    proof {
                        assert(is_legal == castle_path_clear(m, mv));
                    }
                    if is_legal {
                        legal_moves.push(mv);
                    }
                } else {
                    legal_moves.push(mv);
                }
            }
            let ghost pushed = legal_moves@.len() > before.len();
            proof {
                assert(pseudo_legal_moves@.subrange(0, idx as int + 1) =~= pseudo_legal_moves@
                    .subrange(0, idx as int).push(mv));
                if pushed {
                    assert(legal_moves@ == before.push(mv));
                } else {
                    assert(legal_moves@ == before);
                }
                assert(pushed <==> legal_move_ok(m, mv));
                assert forall|x: Move| #[trigger]
                    legal_moves@.contains(x) <==> (pseudo_legal_moves@.subrange(
                        0,
                        idx as int + 1,
                    ).contains(x) && legal_move_ok(m, x)) by {
                    let pre = pseudo_legal_moves@.subrange(0, idx as int);
                    let ext = pseudo_legal_moves@.subrange(0, idx as int + 1);
                    assert(ext.contains(x) <==> (pre.contains(x) || x == mv)) by {
                        if ext.contains(x) {
                            let j = choose|j: int| 0 <= j < ext.len() && ext[j] == x;
                            if j < pre.len() {
                                assert(pre[j] == x);
                            }
                        }
                        if pre.contains(x) {
                            let j = choose|j: int| 0 <= j < pre.len() && pre[j] == x;
                            assert(ext[j] == x);
                        }
                        if x == mv {
                            assert(ext[ext.len() - 1] == x);
                        }
                    }
                    if legal_moves@.contains(x) {
                        let j = choose|j: int| 0 <= j < legal_moves@.len() && legal_moves@[j] == x;
                        if j < before.len() {
                            assert(before[j] == x);
                            assert(before.contains(x));
                            assert(pre.contains(x) && legal_move_ok(m, x));
                        } else {
                            assert(x == mv);
                        }
                    }
                    if before.contains(x) {
                        let j = choose|j: int| 0 <= j < before.len() && before[j] == x;
                        assert(legal_moves@[j] == x);
                        assert(legal_moves@.contains(x));
                    }
                    if x == mv && legal_move_ok(m, x) {
                        assert(pushed);
                        assert(legal_moves@[before.len() as int] == mv);
                        assert(legal_moves@.contains(x));
                    }
                }
                assert forall|j1: int, j2: int|
                    0 <= j1 < j2 < legal_moves@.len() implies legal_moves@[j1]
                    != legal_moves@[j2] by {
                    if j2 < before.len() {
                        assert(legal_moves@[j1] == before[j1] && legal_moves@[j2] == before[j2]);
                    } else {
                        assert(pushed && j2 == before.len());
                        assert(legal_moves@[j1] == before[j1]);
                        assert(legal_moves@[j2] == mv);
                        if legal_moves@[j1] == legal_moves@[j2] {
                            assert(before.contains(mv));
                            assert(pseudo_legal_moves@.subrange(0, idx as int).contains(mv));
                            let j = choose|j: int|
                                0 <= j < idx as int && pseudo_legal_moves@.subrange(0, idx as int)[j]
                                    == mv;
                            assert(pseudo_legal_moves@[j] == mv);
                            assert(pseudo_legal_moves@[idx as int] == mv);
                            assert(false);
                        }
                    }
                }
            }
            idx = idx + 1;
        }
        proof {
            assert(pseudo_legal_moves@.subrange(0, pseudo_legal_moves@.len() as int)
                =~= pseudo_legal_moves@);
        }
        legal_moves
    }
}

} // verus!
