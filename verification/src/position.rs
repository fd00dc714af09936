//! The executable position: twelve bitboards plus the irreversible fields
//! and the undo stack. Every mutation is proved to implement the
//! corresponding model transition from [`crate::model`].

use vstd::prelude::*;
use crate::bits::bit64;
use crate::bits::mask1;
use crate::model::BoardModel;
use crate::model::BoardState;
use crate::model::all_mask;
use crate::model::bbs_after;
use crate::model::bbs_before;
use crate::model::board_ok;
use crate::model::color_mask;
use crate::model::ep_after;
use crate::model::idx_of;
use crate::model::make_safe;
use crate::model::model_wf;
use crate::model::piece_of_idx;
use crate::model::rights_after;
use crate::model::scan_piece;
use crate::model::spec_make;
use crate::model::spec_piece_at;
use crate::model::spec_unmake;
use crate::model::union_range;
use crate::model::unmake_safe;
use crate::model::CASTLE_BLACK_KINGSIDE;
use crate::model::CASTLE_BLACK_QUEENSIDE;
use crate::model::CASTLE_WHITE_KINGSIDE;
use crate::model::CASTLE_WHITE_QUEENSIDE;
use crate::types::flip_color;
use crate::types::Color;
use crate::types::Move;
use crate::types::Piece;
use crate::types::PieceKind;
use crate::types::Square;

verus! {

/// The model of the standard starting position.
pub open spec fn start_model() -> BoardModel {
    BoardModel {
        bbs: seq![
            0x000000000000FF00u64,
            0x0000000000000042u64,
            0x0000000000000024u64,
            0x0000000000000081u64,
            0x0000000000000008u64,
            0x0000000000000010u64,
            0x00FF000000000000u64,
            0x4200000000000000u64,
            0x2400000000000000u64,
            0x8100000000000000u64,
            0x0800000000000000u64,
            0x1000000000000000u64,
        ],
        side: Color::White,
        rights: (CASTLE_WHITE_KINGSIDE | CASTLE_WHITE_QUEENSIDE | CASTLE_BLACK_KINGSIDE
            | CASTLE_BLACK_QUEENSIDE) as u8,
        ep: None,
        halfmove: 0u8,
        fullmove: 1u16,
        hist: Seq::empty(),
    }
}

/// The model of a board with no pieces.
pub open spec fn empty_model() -> BoardModel {
    BoardModel {
        bbs: Seq::new(12, |i: int| 0u64),
        side: Color::White,
        rights: 0u8,
        ep: None,
        halfmove: 0u8,
        fullmove: 1u16,
        hist: Seq::empty(),
    }
}

/// A chess position held as twelve piece bitboards, with the bookkeeping
/// fields and the undo stack that make moves exactly reversible.
pub struct BitboardBoard {
    bitboards: Vec<u64>,
    side_to_move: Color,
    castling_rights: u8,
    en_passant_square: Option<Square>,
    halfmove_clock: u8,
    fullmove_number: u16,
    history: Vec<BoardState>,
}

impl View for BitboardBoard {
    type V = BoardModel;

    closed spec fn view(&self) -> BoardModel {
        BoardModel {
            bbs: self.bitboards@,
            side: self.side_to_move,
            rights: self.castling_rights,
            ep: self.en_passant_square,
            halfmove: self.halfmove_clock,
            fullmove: self.fullmove_number,
            hist: self.history@,
        }
    }
}

impl BitboardBoard {
    /// A board with no pieces, White to move, no castling rights.
    pub fn new_empty() -> (r: Self)
        ensures
            r@ == empty_model(),
            board_ok(r@),
    {
        let mut bbs: Vec<u64> = Vec::new();
        let mut i: usize = 0;
        while i < 12
            invariant
                0 <= i <= 12,
                bbs@.len() == i,
                forall|j: int| 0 <= j < i ==> bbs@[j] == 0u64,
            decreases 12 - i,
        {
            bbs.push(0u64);
            i = i + 1;
        }
        let r = BitboardBoard {
            bitboards: bbs,
            side_to_move: Color::White,
            castling_rights: 0,
            en_passant_square: None,
            halfmove_clock: 0,
            fullmove_number: 1,
            history: Vec::new(),
        };
        proof {
            assert(r@.bbs =~= empty_model().bbs);
            assert(r@.hist =~= empty_model().hist);
        }
        r
    }

    /// The standard starting position, all castling rights intact.
    pub fn new_startpos() -> (r: Self)
        ensures
            r@ == start_model(),
            board_ok(r@),
    {
        let mut bbs: Vec<u64> = Vec::new();
        bbs.push(0x000000000000FF00u64);
        bbs.push(0x0000000000000042u64);
        bbs.push(0x0000000000000024u64);
        bbs.push(0x0000000000000081u64);
        bbs.push(0x0000000000000008u64);
        bbs.push(0x0000000000000010u64);
        bbs.push(0x00FF000000000000u64);
        bbs.push(0x4200000000000000u64);
        bbs.push(0x2400000000000000u64);
        bbs.push(0x8100000000000000u64);
        bbs.push(0x0800000000000000u64);
        bbs.push(0x1000000000000000u64);
        let r = BitboardBoard {
            bitboards: bbs,
            side_to_move: Color::White,
            castling_rights: CASTLE_WHITE_KINGSIDE | CASTLE_WHITE_QUEENSIDE
                | CASTLE_BLACK_KINGSIDE | CASTLE_BLACK_QUEENSIDE,
            en_passant_square: None,
            halfmove_clock: 0,
            fullmove_number: 1,
            history: Vec::new(),
        };
        proof {
            assert(r@.bbs =~= start_model().bbs);
            assert(r@.hist =~= start_model().hist);
        }
        r
    }

    /// Flips the side to move; everything else is untouched.
    pub fn switch_side(&mut self)
        ensures
            final(self)@ == (BoardModel { side: flip_color(old(self)@.side), ..old(self)@ }),
    {
        self.side_to_move = if self.side_to_move == Color::White {
            Color::Black
        } else {
            Color::White
        };
    }

    /// The side that moves next.
    pub fn side_to_move(&self) -> (r: Color)
        ensures
            r == self@.side,
    {
        self.side_to_move
    }

    /// The castling-right flags, a union of the `CASTLE_*` constants.
    pub fn castling_rights(&self) -> (r: u8)
        ensures
            r == self@.rights,
    {
        self.castling_rights
    }

    /// The en-passant target square, if the last move was a double pawn push.
    pub fn en_passant_square(&self) -> (r: Option<Square>)
        ensures
            r == self@.ep,
    {
        self.en_passant_square
    }

    /// Moves since the last pawn move or capture.
    pub fn halfmove_clock(&self) -> (r: u8)
        ensures
            r == self@.halfmove,
    {
        self.halfmove_clock
    }

    /// The fullmove number, incrementing after each Black move.
    pub fn fullmove_number(&self) -> (r: u16)
        ensures
            r == self@.fullmove,
    {
        self.fullmove_number
    }

    /// This board does not hash its contents.
    pub fn hash(&self) -> (r: u64)
        ensures
            r == 0u64,
    {
        0
    }

    /// The piece set with the given index.
    pub fn bitboard(&self, idx: usize) -> (r: u64)
        requires
            model_wf(self@),
            idx < 12,
        ensures
            r == self@.bbs[idx as int],
    {
        self.bitboards[idx]
    }

    /// The square a captured piece is removed from or returned to: the
    /// destination, or the passed pawn's square for an en-passant capture.
    fn capture_square_of(ep: Option<Square>, mv: &Move) -> (r: u8)
        requires
            0 <= crate::model::capture_square(ep, *mv) < 64,
        ensures
            r as int == crate::model::capture_square(ep, *mv),
    {
        let ep_cap = mv.piece.kind == PieceKind::Pawn && (match (ep, &mv.captures) {
            (Some(t), Some(cap)) => t.0 == mv.to.0 && cap.kind == PieceKind::Pawn && cap.color
                != mv.piece.color,
            _ => false,
        });
        if ep_cap {
            proof {
                assert(crate::model::is_ep_capture(ep, *mv));
            }
            if mv.piece.color == Color::White {
                mv.to.0 - 8
            } else {
                mv.to.0 + 8
            }
        } else {
            proof {
                assert(!crate::model::is_ep_capture(ep, *mv));
            }
            mv.to.0
        }
    }

    /// The piece-set index of a color and kind.
    pub(crate) fn get_bitboard_index(&self, color: Color, kind: PieceKind) -> (r: usize)
        ensures
            r == idx_of(color, kind),
    {
        let base: usize = match color {
            Color::White => 0,
            Color::Black => 6,
        };
        let off: usize = match kind {
            PieceKind::Pawn => 0,
            PieceKind::Knight => 1,
            PieceKind::Bishop => 2,
            PieceKind::Rook => 3,
            PieceKind::Queen => 4,
            PieceKind::King => 5,
        };
        base + off
    }

    /// The piece of a piece-set index.
    fn index_piece(i: usize) -> (r: Piece)
        requires
            i < 12,
        ensures
            r == piece_of_idx(i as int),
    {
        let color = if i < 6 {
            Color::White
        } else {
            Color::Black
        };
        let kind = match i % 6 {
            0 => PieceKind::Pawn,
            1 => PieceKind::Knight,
            2 => PieceKind::Bishop,
            3 => PieceKind::Rook,
            4 => PieceKind::Queen,
            _ => PieceKind::King,
        };
        Piece { color, kind }
    }

    /// The piece on a square: the first piece set holding its bit.
    pub fn piece_at(&self, sq: Square) -> (r: Option<Piece>)
        requires
            model_wf(self@),
            sq.0 < 64,
        ensures
            r == spec_piece_at(self@, sq.0 as int),
    {
        let mask: u64 = 1u64 << (sq.0 as u64);
        let s = Ghost(sq.0 as int);
        let mut i: usize = 0;
        while i < 12
            invariant
                model_wf(self@),
                0 <= i <= 12,
                sq.0 < 64,
                mask == mask1(s@),
                s@ == sq.0 as int,
                spec_piece_at(self@, s@) == scan_piece(self@, s@, i as int),
            decreases 12 - i,
        {
            if self.bitboards[i] & mask != 0 {
                proof {
                    crate::bits::lemma_mask_test(self@.bbs[i as int], s@);
                }
                return Some(Self::index_piece(i));
            }
            proof {
                crate::bits::lemma_mask_test(self@.bbs[i as int], s@);
            }
            i = i + 1;
        }
        None
    }

    /// Every occupied square with its piece: a pair is listed exactly when
    /// the piece's set holds the square's bit, and no pair is listed twice.
    pub fn get_all_pieces(&self) -> (r: Vec<(Square, Piece)>)
        requires
            model_wf(self@),
        ensures
            forall|e: (Square, Piece)| #[trigger]
                r@.contains(e) <==> (e.0.0 < 64 && bit64(
                    self@.bbs[idx_of(e.1.color, e.1.kind)],
                    e.0.0 as int,
                ) && e.1 == piece_of_idx(idx_of(e.1.color, e.1.kind))),
            r@.no_duplicates(),
    {
        let mut out: Vec<(Square, Piece)> = Vec::new();
        let mut i: usize = 0;
        while i < 12
            invariant
                model_wf(self@),
                0 <= i <= 12,
                forall|e: (Square, Piece)| #[trigger]
                    out@.contains(e) <==> (e.0.0 < 64 && idx_of(e.1.color, e.1.kind) < i
                        && bit64(self@.bbs[idx_of(e.1.color, e.1.kind)], e.0.0 as int) && e.1
                        == piece_of_idx(idx_of(e.1.color, e.1.kind))),
                out@.no_duplicates(),
            decreases 12 - i,
        {
            let piece = Self::index_piece(i);
            proof {
                lemma_idx_piece_roundtrip(i as int);
            }
            let mut bits: u64 = self.bitboards[i];
            let ghost board: u64 = self.bitboards@[i as int];
            while bits != 0
                invariant
                    model_wf(self@),
                    0 <= i < 12,
                    piece == piece_of_idx(i as int),
                    idx_of(piece.color, piece.kind) == i as int,
                    board == self@.bbs[i as int],
                    forall|j: int| bit64(bits, j) ==> bit64(board, j),
                    forall|e: (Square, Piece)| #[trigger]
                        out@.contains(e) <==> ((e.0.0 < 64 && idx_of(e.1.color, e.1.kind)
                            < i && bit64(self@.bbs[idx_of(e.1.color, e.1.kind)], e.0.0 as int)
                            && e.1 == piece_of_idx(idx_of(e.1.color, e.1.kind))) || (e.1 == piece
                            && e.0.0 < 64 && bit64(board, e.0.0 as int) && !bit64(
                            bits,
                            e.0.0 as int,
                        ))),
                    out@.no_duplicates(),
                decreases bits,
            {
                proof {
                    crate::bits::lemma_lowest_bit(bits);
                }
                let sq: u8 = bits.trailing_zeros() as u8;
                let ghost oldbits: u64 = bits;
                bits = bits & (bits - 1);
                proof {
                    crate::bits::lemma_clear_bit(
                        oldbits,
                        vstd::std_specs::bits::u64_trailing_zeros(oldbits) as int,
                        sq as int,
                    );
                    assert(!out@.contains((Square(sq), piece)));
                    assert forall|j: int| #[trigger]
                        bit64(bits, j) == (j != sq && bit64(oldbits, j)) by {
                        crate::bits::lemma_clear_bit(
                            oldbits,
                            vstd::std_specs::bits::u64_trailing_zeros(oldbits) as int,
                            j,
                        );
                    }
                }
                let ghost old_out = out@;
                out.push((Square(sq), piece));
                proof {
                    assert forall|e: (Square, Piece)|
                        #![trigger out@.contains(e)]
                        true implies (out@.contains(e) <==> (old_out.contains(e) || e == (
                        Square(sq),
                        piece,
                    ))) by {
                        if out@.contains(e) {
                            let k = choose|k: int| 0 <= k < out@.len() && out@[k] == e;
                            if k < out@.len() - 1 {
                                assert(old_out[k] == e);
                            }
                        }
                        if old_out.contains(e) {
                            let k = choose|k: int| 0 <= k < old_out.len() && old_out[k] == e;
                            assert(out@[k] == e);
                        }
                        if e == (Square(sq), piece) {
                            assert(out@[out@.len() - 1] == e);
                        }
                    }
                    assert forall|k1: int, k2: int|
                        0 <= k1 < k2 < out@.len() implies out@[k1] != out@[k2] by {
                        if k2 == out@.len() - 1 {
                            assert(old_out[k1] == out@[k1]);
                            assert(old_out.contains(old_out[k1]));
                        }
                    }
                }
            }
            proof {
                broadcast use crate::bits::lemma_bit_zero;

                assert forall|e: (Square, Piece)|
                    #![trigger out@.contains(e)]
                    true implies (out@.contains(e) <==> (e.0.0 < 64 && idx_of(
                    e.1.color,
                    e.1.kind,
                ) < i + 1 && bit64(self@.bbs[idx_of(e.1.color, e.1.kind)], e.0.0 as int) && e.1
                    == piece_of_idx(idx_of(e.1.color, e.1.kind)))) by {
                    if e.1 == piece {
                        assert(idx_of(e.1.color, e.1.kind) == i as int);
                    }
                    if idx_of(e.1.color, e.1.kind) == i as int && e.1 == piece_of_idx(
                        idx_of(e.1.color, e.1.kind),
                    ) {
                        assert(e.1 == piece);
                    }
                }
            }
            i = i + 1;
        }
        out
    }

    /// The mask of all occupied squares.
    pub fn get_all_pieces_mask(&self) -> (r: u64)
        requires
            model_wf(self@),
        ensures
            r == all_mask(self@),
    {
        self.union_of_range(0, 12)
    }

    /// The mask of squares empty on the whole board.
    pub fn get_empty_squares_bitboard(&self) -> (r: u64)
        requires
            model_wf(self@),
        ensures
            r == !all_mask(self@),
    {
        !self.get_all_pieces_mask()
    }

    /// The mask of squares occupied by pieces of one color.
    pub fn get_mask_for_color(&self, color: Color) -> (r: u64)
        requires
            model_wf(self@),
        ensures
            r == color_mask(self@, color),
    {
        match color {
            Color::White => self.union_of_range(0, 6),
            Color::Black => self.union_of_range(6, 12),
        }
    }

    /// The mask of squares occupied by the side not to move.
    pub fn get_enemy_bitboard(&self) -> (r: u64)
        requires
            model_wf(self@),
        ensures
            r == color_mask(self@, flip_color(self@.side)),
    {
        if self.side_to_move == Color::White {
            self.get_mask_for_color(Color::Black)
        } else {
            self.get_mask_for_color(Color::White)
        }
    }

    /// The union of the piece sets with index in `[lo, hi)`.
    fn union_of_range(&self, lo: usize, hi: usize) -> (r: u64)
        requires
            model_wf(self@),
            lo <= hi <= 12,
        ensures
            r == union_range(self@.bbs, lo as int, hi as int),
    {
        let mut acc: u64 = 0;
        let mut i: usize = lo;
        while i < hi
            invariant
                model_wf(self@),
                lo <= i <= hi <= 12,
                acc == union_range(self@.bbs, lo as int, i as int),
            decreases hi - i,
        {
            acc = acc | self.bitboards[i];
            i = i + 1;
        }
        acc
    }

    /// Replaces the whole position with parsed fields and an empty undo
    /// history.
    pub(crate) fn set_parsed(
        &mut self,
        bbs: Vec<u64>,
        side: Color,
        rights: u8,
        ep: Option<Square>,
        halfmove: u8,
        fullmove: u16,
    )
        requires
            bbs@.len() == 12,
            crate::model::ep_sq_ok(ep),
        ensures
            final(self)@ == (BoardModel {
                bbs: bbs@,
                side,
                rights,
                ep,
                halfmove,
                fullmove,
                hist: Seq::empty(),
            }),
            board_ok(final(self)@),
    {
        self.bitboards = bbs;
        self.side_to_move = side;
        self.castling_rights = rights;
        self.en_passant_square = ep;
        self.halfmove_clock = halfmove;
        self.fullmove_number = fullmove;
        self.history = Vec::new();
        proof {
            assert(self@.hist =~= Seq::<BoardState>::empty());
        }
    }

    /// Applies `mv`: exactly the model transition [`spec_make`]. The side
    /// to move is left unchanged; callers flip it with `switch_side`.
    pub fn make_move(&mut self, mv: &Move)
        requires
            board_ok(old(self)@),
            make_safe(old(self)@, *mv),
        ensures
            final(self)@ == spec_make(old(self)@, *mv),
            board_ok(final(self)@),
    {
        self.history.push(
            BoardState {
                castling_rights: self.castling_rights,
                en_passant_square: self.en_passant_square,
                halfmove_clock: self.halfmove_clock,
            },
        );

        self.halfmove_clock = self.halfmove_clock + 1;
        if self.side_to_move == Color::Black {
            self.fullmove_number = self.fullmove_number + 1;
        }
        if mv.piece.kind == PieceKind::Pawn || mv.captures.is_some() {
            self.halfmove_clock = 0;
        }

        let from_mask: u64 = 1u64 << (mv.from.0 as u64);
        let to_mask: u64 = 1u64 << (mv.to.0 as u64);

        let capture_sq = Self::capture_square_of(self.en_passant_square, mv);
        let piece_index = self.get_bitboard_index(mv.piece.color, mv.piece.kind);
        self.en_passant_square = None;

        let bb0 = self.bitboards[piece_index];
        self.bitboards.set(piece_index, bb0 & !from_mask);

        if let Some(captured) = &mv.captures {
            let capture_index = self.get_bitboard_index(captured.color, captured.kind);
            let bbc = self.bitboards[capture_index];
            self.bitboards.set(capture_index, bbc & !(1u64 << (capture_sq as u64)));
        }

        match mv.promotion {
            Some(promoted_kind) => {
                let promo_index = self.get_bitboard_index(mv.piece.color, promoted_kind);
                let bbp = self.bitboards[promo_index];
                self.bitboards.set(promo_index, bbp | to_mask);
            },
            None => {
                let bbp = self.bitboards[piece_index];
                self.bitboards.set(piece_index, bbp | to_mask);
            },
        }

        if mv.piece.kind == PieceKind::King {
            if mv.to.0 == mv.from.0 + 2 || mv.to.0 + 2 == mv.from.0 {
                let (rook_from, rook_to): (u8, u8) = if mv.to.0 > mv.from.0 {
                    (mv.to.0 + 1, mv.to.0 - 1)
                } else {
                    (mv.to.0 - 2, mv.to.0 + 1)
                };
                let rook_index = self.get_bitboard_index(mv.piece.color, PieceKind::Rook);
                let bbr = self.bitboards[rook_index];
                self.bitboards.set(
                    rook_index,
                    (bbr & !(1u64 << (rook_from as u64))) | (1u64 << (rook_to as u64)),
                );
            }
            if mv.piece.color == Color::White {
                self.castling_rights = self.castling_rights & !CASTLE_WHITE_KINGSIDE;
                self.castling_rights = self.castling_rights & !CASTLE_WHITE_QUEENSIDE;
            } else {
                self.castling_rights = self.castling_rights & !CASTLE_BLACK_KINGSIDE;
                self.castling_rights = self.castling_rights & !CASTLE_BLACK_QUEENSIDE;
            }
        }

        if mv.piece.kind == PieceKind::Rook {
            if mv.from.0 == 0 {
                self.castling_rights = self.castling_rights & !CASTLE_WHITE_QUEENSIDE;
            } else if mv.from.0 == 7 {
                self.castling_rights = self.castling_rights & !CASTLE_WHITE_KINGSIDE;
            } else if mv.from.0 == 56 {
                self.castling_rights = self.castling_rights & !CASTLE_BLACK_QUEENSIDE;
            } else if mv.from.0 == 63 {
                self.castling_rights = self.castling_rights & !CASTLE_BLACK_KINGSIDE;
            }
        }

        if let Some(captured) = &mv.captures {
            if captured.kind == PieceKind::Rook {
                if mv.to.0 == 0 {
                    self.castling_rights = self.castling_rights & !CASTLE_WHITE_QUEENSIDE;
                } else if mv.to.0 == 7 {
                    self.castling_rights = self.castling_rights & !CASTLE_WHITE_KINGSIDE;
                } else if mv.to.0 == 56 {
                    self.castling_rights = self.castling_rights & !CASTLE_BLACK_QUEENSIDE;
                } else if mv.to.0 == 63 {
                    self.castling_rights = self.castling_rights & !CASTLE_BLACK_KINGSIDE;
                }
            }
        }

        if mv.piece.kind == PieceKind::Pawn {
            if mv.to.0 == mv.from.0 + 16 {
                self.en_passant_square = Some(Square(mv.from.0 + 8));
            } else if mv.to.0 + 16 == mv.from.0 {
                self.en_passant_square = Some(Square(mv.from.0 - 8));
            }
        }

        proof {
            assert(self@.bbs =~= bbs_after(old(self)@.bbs, old(self)@.ep, *mv));
            assert(self@.hist =~= spec_make(old(self)@, *mv).hist);
            assert(self@.rights == rights_after(old(self)@.rights, *mv));
            assert(self@.ep == ep_after(*mv));
        }
    }

    /// Undoes `mv`, which must be the exact move of the matching
    /// `make_move`: exactly the model transition [`spec_unmake`].
    pub fn unmake_move(&mut self, mv: &Move)
        requires
            board_ok(old(self)@),
            unmake_safe(old(self)@, *mv),
        ensures
            final(self)@ == spec_unmake(old(self)@, *mv),
            board_ok(final(self)@),
    {
        if let Some(prev_state) = self.history.pop() {
            self.castling_rights = prev_state.castling_rights;
            self.en_passant_square = prev_state.en_passant_square;
            self.halfmove_clock = prev_state.halfmove_clock;
        }
        if self.side_to_move == Color::White {
            self.fullmove_number = self.fullmove_number - 1;
        }

        let from_mask: u64 = 1u64 << (mv.from.0 as u64);
        let to_mask: u64 = 1u64 << (mv.to.0 as u64);

        let capture_sq = Self::capture_square_of(self.en_passant_square, mv);
        let piece_index = self.get_bitboard_index(mv.piece.color, mv.piece.kind);

        match mv.promotion {
            Some(promoted_kind) => {
                let promo_index = self.get_bitboard_index(mv.piece.color, promoted_kind);
                let bbq = self.bitboards[promo_index];
                self.bitboards.set(promo_index, bbq & !to_mask);
                let bbp = self.bitboards[piece_index];
                self.bitboards.set(piece_index, bbp | from_mask);
            },
            None => {
                let bbp = self.bitboards[piece_index];
                self.bitboards.set(piece_index, (bbp & !to_mask) | from_mask);
            },
        }

        if let Some(captured) = &mv.captures {
            let capture_index = self.get_bitboard_index(captured.color, captured.kind);
            let bbc = self.bitboards[capture_index];
            self.bitboards.set(capture_index, bbc | (1u64 << (capture_sq as u64)));
        }

        if mv.piece.kind == PieceKind::King {
            if mv.to.0 == mv.from.0 + 2 || mv.to.0 + 2 == mv.from.0 {
                let (rook_from, rook_to): (u8, u8) = if mv.to.0 > mv.from.0 {
                    (mv.to.0 + 1, mv.to.0 - 1)
                } else {
                    (mv.to.0 - 2, mv.to.0 + 1)
                };
                let rook_index = self.get_bitboard_index(mv.piece.color, PieceKind::Rook);
                let bbr = self.bitboards[rook_index];
                self.bitboards.set(
                    rook_index,
                    (bbr | (1u64 << (rook_from as u64))) & !(1u64 << (rook_to as u64)),
                );
            }
        }

        proof {
            assert(self@.bbs =~= bbs_before(
                old(self)@.bbs,
                old(self)@.hist.last().en_passant_square,
                *mv,
            ));
            assert(self@.hist =~= spec_unmake(old(self)@, *mv).hist);
        }
    }
}

impl Clone for BitboardBoard {
    /// An independent copy with the same model.
    fn clone(&self) -> (r: Self)
        ensures
            r@ == self@,
    {
        let mut bbs: Vec<u64> = Vec::new();
        let mut i: usize = 0;
        while i < self.bitboards.len()
            invariant
                bbs@.len() == i,
                i <= self.bitboards@.len(),
                forall|j: int| 0 <= j < i ==> bbs@[j] == self.bitboards@[j],
            decreases self.bitboards@.len() - i,
        {
            bbs.push(self.bitboards[i]);
            i = i + 1;
        }
        let mut hist: Vec<BoardState> = Vec::new();
        let mut k: usize = 0;
        while k < self.history.len()
            invariant
                hist@.len() == k,
                k <= self.history@.len(),
                forall|j: int| 0 <= j < k ==> hist@[j] == self.history@[j],
            decreases self.history@.len() - k,
        {
            hist.push(self.history[k]);
            k = k + 1;
        }
        let r = BitboardBoard {
            bitboards: bbs,
            side_to_move: self.side_to_move,
            castling_rights: self.castling_rights,
            en_passant_square: self.en_passant_square,
            halfmove_clock: self.halfmove_clock,
            fullmove_number: self.fullmove_number,
            history: hist,
        };
        proof {
            assert(r@.bbs =~= self@.bbs);
            assert(r@.hist =~= self@.hist);
        }
        r
    }
}

/// The position interface: piece lookup, legal-move generation, the
/// make/unmake pair, and record import. Every implementor models its
/// state as a [`BoardModel`] and meets the same contracts the bitboard
/// implementation does.
pub trait Board: View<V = BoardModel> {
    /// The piece on a square.
    fn piece_at(&self, square: Square) -> (r: Option<Piece>)
        requires
            model_wf(self@),
            square.0 < 64,
        ensures
            r == spec_piece_at(self@, square.0 as int),
    ;

    /// Every occupied square with its piece, each pair once.
    fn get_all_pieces(&self) -> (r: Vec<(Square, Piece)>)
        requires
            model_wf(self@),
        ensures
            forall|e: (Square, Piece)| #[trigger]
                r@.contains(e) <==> (e.0.0 < 64 && bit64(
                    self@.bbs[idx_of(e.1.color, e.1.kind)],
                    e.0.0 as int,
                ) && e.1 == piece_of_idx(idx_of(e.1.color, e.1.kind))),
            r@.no_duplicates(),
    ;

    /// Every legal move of the side to move, each exactly once.
    fn generate_moves(&self) -> (r: Vec<Move>)
        requires
            board_ok(self@),
            crate::legal::counters_ok(self@),
        ensures
            forall|mv: Move| #[trigger]
                r@.contains(mv) <==> crate::legal::legal_move_ok(self@, mv),
            r@.no_duplicates(),
    ;

    /// Applies a move without flipping the side to move.
    fn make_move(&mut self, mv: &Move)
        requires
            board_ok(old(self)@),
            make_safe(old(self)@, *mv),
        ensures
            final(self)@ == spec_make(old(self)@, *mv),
            board_ok(final(self)@),
    ;

    /// Takes back the matching move.
    fn unmake_move(&mut self, mv: &Move)
        requires
            board_ok(old(self)@),
            unmake_safe(old(self)@, *mv),
        ensures
            final(self)@ == spec_unmake(old(self)@, *mv),
            board_ok(final(self)@),
    ;

    /// A position hash; this library does not compute one.
    fn hash(&self) -> u64;

    /// The side that moves next.
    fn side_to_move(&self) -> (r: Color)
        ensures
            r == self@.side,
    ;

    /// Imports a record, rejecting malformed ones untouched.
    fn load_fen(&mut self, fen: &str) -> (r: bool)
        requires
            board_ok(old(self)@),
        ensures
            r == (crate::fen::parse_fen(fen@) is Some),
            r ==> final(self)@ == crate::fen::parse_fen(fen@).unwrap(),
            !r ==> final(self)@ == old(self)@,
            board_ok(final(self)@),
    ;
}

impl Board for BitboardBoard {
    fn piece_at(&self, square: Square) -> (r: Option<Piece>) {
        BitboardBoard::piece_at(self, square)
    }

    fn get_all_pieces(&self) -> (r: Vec<(Square, Piece)>) {
        BitboardBoard::get_all_pieces(self)
    }

    fn generate_moves(&self) -> (r: Vec<Move>) {
        BitboardBoard::generate_moves(self)
    }

    fn make_move(&mut self, mv: &Move) {
        BitboardBoard::make_move(self, mv)
    }

    fn unmake_move(&mut self, mv: &Move) {
        BitboardBoard::unmake_move(self, mv)
    }

    fn hash(&self) -> u64 {
        BitboardBoard::hash(self)
    }

    fn side_to_move(&self) -> (r: Color) {
        BitboardBoard::side_to_move(self)
    }

    fn load_fen(&mut self, fen: &str) -> (r: bool) {
        BitboardBoard::load_fen(self, fen)
    }
}

/// Piece-set indexing and piece naming invert each other.
pub proof fn lemma_idx_piece_roundtrip(i: int)
    requires
        0 <= i < 12,
    ensures
        idx_of(piece_of_idx(i).color, piece_of_idx(i).kind) == i,
{
}

} // verus!
