//! The mathematical model of a position: twelve bitboards, side to move,
//! castling rights, en-passant target, move counters, and the undo stack.
//! `spec_make` and `spec_unmake` are the model-level state transitions that
//! the executable `make_move` / `unmake_move` are proved to implement.

use vstd::prelude::*;
use crate::bits::bit64;
use crate::bits::clear_bit;
use crate::bits::set_bit;
use crate::bits::lemma_bit_or;
use crate::types::Color;
use crate::types::Move;
use crate::types::Piece;
use crate::types::PieceKind;
use crate::types::Square;

verus! {

/// Castling-right flag: White may castle kingside.
pub const CASTLE_WHITE_KINGSIDE: u8 = 1;

/// Castling-right flag: White may castle queenside.
pub const CASTLE_WHITE_QUEENSIDE: u8 = 2;

/// Castling-right flag: Black may castle kingside.
pub const CASTLE_BLACK_KINGSIDE: u8 = 4;

/// Castling-right flag: Black may castle queenside.
pub const CASTLE_BLACK_QUEENSIDE: u8 = 8;

/// The snapshot of the irreversible fields, pushed on every applied move
/// and popped on undo; a move record alone cannot reconstruct these.
#[derive(Debug, Clone, Copy, PartialEq, Eq)]
pub struct BoardState {
    pub castling_rights: u8,
    pub en_passant_square: Option<Square>,
    pub halfmove_clock: u8,
}

/// The abstract value of a whole position.
pub ghost struct BoardModel {
    /// Twelve piece sets: White pawn, knight, bishop, rook, queen, king,
    /// then the same kinds for Black.
    pub bbs: Seq<u64>,
    /// The side that moves next.
    pub side: Color,
    /// Castling-right flags, a union of the `CASTLE_*` constants.
    pub rights: u8,
    /// The square a double pawn push just passed over, if any.
    pub ep: Option<Square>,
    /// Moves since the last pawn move or capture.
    pub halfmove: u8,
    /// Increments after each Black move.
    pub fullmove: u16,
    /// Undo snapshots, oldest first.
    pub hist: Seq<BoardState>,
}

/// The piece-set index of a color and kind.
pub open spec fn idx_of(c: Color, k: PieceKind) -> int {
    (match c {
        Color::White => 0int,
        Color::Black => 6int,
    }) + (match k {
        PieceKind::Pawn => 0int,
        PieceKind::Knight => 1int,
        PieceKind::Bishop => 2int,
        PieceKind::Rook => 3int,
        PieceKind::Queen => 4int,
        PieceKind::King => 5int,
    })
}

/// The piece a piece-set index stands for.
pub open spec fn piece_of_idx(i: int) -> Piece {
    Piece {
        color: if i < 6 {
            Color::White
        } else {
            Color::Black
        },
        kind: if i % 6 == 0 {
            PieceKind::Pawn
        } else if i % 6 == 1 {
            PieceKind::Knight
        } else if i % 6 == 2 {
            PieceKind::Bishop
        } else if i % 6 == 3 {
            PieceKind::Rook
        } else if i % 6 == 4 {
            PieceKind::Queen
        } else {
            PieceKind::King
        },
    }
}

/// A model is well formed when it has exactly twelve piece sets.
pub open spec fn model_wf(m: BoardModel) -> bool {
    m.bbs.len() == 12
}

/// An en-passant target, when present, lies on the board.
pub open spec fn ep_sq_ok(ep: Option<Square>) -> bool {
    match ep {
        Some(sq) => sq.0 < 64,
        None => true,
    }
}

/// Everything the position operations preserve: twelve piece sets, and
/// every en-passant target, current or snapshotted, on the board.
pub open spec fn board_ok(m: BoardModel) -> bool {
    &&& model_wf(m)
    &&& ep_sq_ok(m.ep)
    &&& forall|i: int| 0 <= i < m.hist.len() ==> ep_sq_ok(#[trigger] m.hist[i].en_passant_square)
}

/// The twelve piece sets hold pairwise disjoint squares.
pub open spec fn disjoint_sets(m: BoardModel) -> bool {
    forall|i: int, j: int, s: int|
        0 <= i < 12 && 0 <= j < 12 && i != j ==> !(#[trigger] bit64(m.bbs[i], s)
            && #[trigger] bit64(m.bbs[j], s))
}

/// The union of the piece sets with index in `[lo, hi)`.
pub open spec fn union_range(bbs: Seq<u64>, lo: int, hi: int) -> u64
    decreases hi - lo,
{
    if lo >= hi {
        0u64
    } else {
        union_range(bbs, lo, hi - 1) | bbs[hi - 1]
    }
}

/// The mask of all occupied squares.
pub open spec fn all_mask(m: BoardModel) -> u64 {
    union_range(m.bbs, 0, 12)
}

/// The mask of squares occupied by pieces of color `c`.
pub open spec fn color_mask(m: BoardModel, c: Color) -> u64 {
    match c {
        Color::White => union_range(m.bbs, 0, 6),
        Color::Black => union_range(m.bbs, 6, 12),
    }
}

/// A bit of a piece-set union is a bit of one of the sets.
pub proof fn lemma_union_range_bits(bbs: Seq<u64>, lo: int, hi: int, s: int)
    requires
        0 <= lo <= hi <= bbs.len(),
    ensures
        bit64(union_range(bbs, lo, hi), s) <==> exists|i: int|
            lo <= i < hi && bit64(#[trigger] bbs[i], s),
    decreases hi - lo,
{
    if lo < hi {
        lemma_union_range_bits(bbs, lo, hi - 1, s);
        lemma_bit_or(union_range(bbs, lo, hi - 1), bbs[hi - 1], s);
        if bit64(bbs[hi - 1], s) {
            assert(lo <= hi - 1 < hi && bit64(bbs[hi - 1], s));
        }
    } else {
        crate::bits::lemma_bit_zero(s);
    }
}

/// The first piece set at or after index `i` holding square `s`, if any.
pub open spec fn scan_piece(m: BoardModel, s: int, i: int) -> Option<Piece>
    decreases 12 - i,
{
    if i < 0 || i >= 12 {
        None
    } else if bit64(m.bbs[i], s) {
        Some(piece_of_idx(i))
    } else {
        scan_piece(m, s, i + 1)
    }
}

/// The piece occupying square `s`: the first piece set holding it, which
/// under [`disjoint_sets`] is the only one.
pub open spec fn spec_piece_at(m: BoardModel, s: int) -> Option<Piece> {
    scan_piece(m, s, 0)
}

/// True for the king-move shape that means castling: the king travels two
/// files along its rank.
pub open spec fn is_castle_shape(mv: Move) -> bool {
    mv.piece.kind == PieceKind::King && (mv.to.0 == mv.from.0 + 2 || mv.to.0 + 2 == mv.from.0)
}

/// The rook's origin and destination for a castling king move.
pub open spec fn castle_rook_from(mv: Move) -> int {
    if mv.to.0 > mv.from.0 {
        mv.to.0 + 1
    } else {
        mv.to.0 - 2
    }
}

/// See [`castle_rook_from`].
pub open spec fn castle_rook_to(mv: Move) -> int {
    if mv.to.0 > mv.from.0 {
        mv.to.0 - 1
    } else {
        mv.to.0 + 1
    }
}

/// The castling-right flags that survive `mv`: a king move clears both of
/// the mover's flags, a rook move from a home corner clears that corner's
/// flag, and the capture of a rook standing on a home corner clears that
/// corner's flag. Rights are never regained.
pub open spec fn rights_after(rights: u8, mv: Move) -> u8 {
    let r1 = if mv.piece.kind == PieceKind::King {
        if mv.piece.color == Color::White {
            (rights & !CASTLE_WHITE_KINGSIDE) & !CASTLE_WHITE_QUEENSIDE
        } else {
            (rights & !CASTLE_BLACK_KINGSIDE) & !CASTLE_BLACK_QUEENSIDE
        }
    } else {
        rights
    };
    let r2 = if mv.piece.kind == PieceKind::Rook {
        if mv.from.0 == 0 {
            r1 & !CASTLE_WHITE_QUEENSIDE
        } else if mv.from.0 == 7 {
            r1 & !CASTLE_WHITE_KINGSIDE
        } else if mv.from.0 == 56 {
            r1 & !CASTLE_BLACK_QUEENSIDE
        } else if mv.from.0 == 63 {
            r1 & !CASTLE_BLACK_KINGSIDE
        } else {
            r1
        }
    } else {
        r1
    };
    if (match mv.captures {
        Some(cap) => cap.kind == PieceKind::Rook,
        None => false,
    }) {
        if mv.to.0 == 0 {
            r2 & !CASTLE_WHITE_QUEENSIDE
        } else if mv.to.0 == 7 {
            r2 & !CASTLE_WHITE_KINGSIDE
        } else if mv.to.0 == 56 {
            r2 & !CASTLE_BLACK_QUEENSIDE
        } else if mv.to.0 == 63 {
            r2 & !CASTLE_BLACK_KINGSIDE
        } else {
            r2
        }
    } else {
        r2
    }
}

/// True for a move that captures en passant: a pawn lands on the recorded
/// en-passant target while its captured piece is the enemy pawn that just
/// passed it, which stands one rank behind the target rather than on it.
pub open spec fn is_ep_capture(ep: Option<Square>, mv: Move) -> bool {
    &&& mv.piece.kind == PieceKind::Pawn
    &&& ep == Some(mv.to)
    &&& (match mv.captures {
        Some(cap) => cap.kind == PieceKind::Pawn && cap.color != mv.piece.color,
        None => false,
    })
}

/// The square a captured piece is removed from: the destination, except
/// that an en-passant capture removes the pawn one rank behind it.
pub open spec fn capture_square(ep: Option<Square>, mv: Move) -> int {
    if is_ep_capture(ep, mv) {
        match mv.piece.color {
            Color::White => mv.to.0 - 8,
            Color::Black => mv.to.0 + 8,
        }
    } else {
        mv.to.0 as int
    }
}

/// The en-passant target after `mv`: the passed-over square on a double
/// pawn push, and none otherwise.
pub open spec fn ep_after(mv: Move) -> Option<Square> {
    if mv.piece.kind == PieceKind::Pawn && mv.to.0 == mv.from.0 + 16 {
        Some(Square((mv.from.0 + 8) as u8))
    } else if mv.piece.kind == PieceKind::Pawn && mv.to.0 + 16 == mv.from.0 {
        Some(Square((mv.from.0 - 8) as u8))
    } else {
        None
    }
}

/// The piece sets after `mv`: the mover's origin bit is cleared, the
/// captured piece's bit is cleared on its own square — the destination,
/// or the passed pawn's square for an en-passant capture — the
/// destination bit is set in the mover's set or in the promotion kind's
/// set, and a castling king brings its rook across.
pub open spec fn bbs_after(bbs: Seq<u64>, ep: Option<Square>, mv: Move) -> Seq<u64> {
    let pi = idx_of(mv.piece.color, mv.piece.kind);
    let from = mv.from.0 as int;
    let to = mv.to.0 as int;
    let b1 = bbs.update(pi, clear_bit(bbs[pi], from));
    let b2 = match mv.captures {
        Some(cap) => {
            let ci = idx_of(cap.color, cap.kind);
            b1.update(ci, clear_bit(b1[ci], capture_square(ep, mv)))
        },
        None => b1,
    };
    let b3 = match mv.promotion {
        Some(pk) => {
            let qi = idx_of(mv.piece.color, pk);
            b2.update(qi, set_bit(b2[qi], to))
        },
        None => b2.update(pi, set_bit(b2[pi], to)),
    };
    if is_castle_shape(mv) {
        let ri = idx_of(mv.piece.color, PieceKind::Rook);
        b3.update(ri, set_bit(clear_bit(b3[ri], castle_rook_from(mv)), castle_rook_to(mv)))
    } else {
        b3
    }
}

/// The whole model after applying `mv`: piece sets as in [`bbs_after`],
/// counters advanced, rights and en-passant updated, and the pre-move
/// irreversible fields pushed on the undo stack. The side to move is not
/// flipped here; switching sides is the caller's separate, explicit step.
pub open spec fn spec_make(m: BoardModel, mv: Move) -> BoardModel {
    BoardModel {
        bbs: bbs_after(m.bbs, m.ep, mv),
        side: m.side,
        rights: rights_after(m.rights, mv),
        ep: ep_after(mv),
        halfmove: if mv.piece.kind == PieceKind::Pawn || mv.captures is Some {
            0u8
        } else {
            (m.halfmove + 1) as u8
        },
        fullmove: if m.side == Color::Black {
            (m.fullmove + 1) as u16
        } else {
            m.fullmove
        },
        hist: m.hist.push(
            BoardState {
                castling_rights: m.rights,
                en_passant_square: m.ep,
                halfmove_clock: m.halfmove,
            },
        ),
    }
}

/// The piece sets after undoing `mv`, reversing [`bbs_after`] step by
/// step; `ep` is the en-passant target restored from the undo snapshot,
/// which decides where a captured piece returns.
pub open spec fn bbs_before(bbs: Seq<u64>, ep: Option<Square>, mv: Move) -> Seq<u64> {
    let pi = idx_of(mv.piece.color, mv.piece.kind);
    let from = mv.from.0 as int;
    let to = mv.to.0 as int;
    let b1 = match mv.promotion {
        Some(pk) => {
            let qi = idx_of(mv.piece.color, pk);
            bbs.update(qi, clear_bit(bbs[qi], to)).update(
                pi,
                set_bit(bbs.update(qi, clear_bit(bbs[qi], to))[pi], from),
            )
        },
        None => bbs.update(pi, set_bit(clear_bit(bbs[pi], to), from)),
    };
    let b2 = match mv.captures {
        Some(cap) => {
            let ci = idx_of(cap.color, cap.kind);
            b1.update(ci, set_bit(b1[ci], capture_square(ep, mv)))
        },
        None => b1,
    };
    if is_castle_shape(mv) {
        let ri = idx_of(mv.piece.color, PieceKind::Rook);
        b2.update(ri, clear_bit(set_bit(b2[ri], castle_rook_from(mv)), castle_rook_to(mv)))
    } else {
        b2
    }
}

/// The whole model after undoing `mv`: the last undo snapshot restores the
/// irreversible fields, the piece sets are reversed, and the fullmove
/// counter steps back under the same side-parity rule `spec_make` used.
pub open spec fn spec_unmake(m: BoardModel, mv: Move) -> BoardModel {
    let st = m.hist.last();
    BoardModel {
        bbs: bbs_before(m.bbs, st.en_passant_square, mv),
        side: m.side,
        rights: st.castling_rights,
        ep: st.en_passant_square,
        halfmove: st.halfmove_clock,
        fullmove: if m.side == Color::White {
            (m.fullmove - 1) as u16
        } else {
            m.fullmove
        },
        hist: m.hist.drop_last(),
    }
}

/// What the executable `make_move` needs of its input so that every
/// arithmetic step stays in range: squares on the board, counters with
/// room to advance, and the castling shape only out of a king's home
/// square.
pub open spec fn make_safe(m: BoardModel, mv: Move) -> bool {
    &&& mv.from.0 < 64
    &&& mv.to.0 < 64
    &&& m.halfmove < 255
    &&& (m.side == Color::Black ==> m.fullmove < 65535)
    &&& (is_castle_shape(mv) ==> (mv.from.0 == 4 || mv.from.0 == 60))
    &&& 0 <= capture_square(m.ep, mv) < 64
}

/// What the executable `unmake_move` needs: the matching snapshot on the
/// stack, squares on the board, a fullmove counter with room to step back,
/// and the castling shape only out of a king's home square.
pub open spec fn unmake_safe(m: BoardModel, mv: Move) -> bool {
    &&& mv.from.0 < 64
    &&& mv.to.0 < 64
    &&& m.hist.len() > 0
    &&& (m.side == Color::White ==> m.fullmove > 0)
    &&& (is_castle_shape(mv) ==> (mv.from.0 == 4 || mv.from.0 == 60))
    &&& 0 <= capture_square(m.hist.last().en_passant_square, mv) < 64
}

} // verus!
