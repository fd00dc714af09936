//! Pseudo-legal move generation: per piece kind, every move obeying the
//! piece's movement rules, king safety not yet considered. Each generator
//! is proved to append exactly the moves its kind's rules allow.

use vstd::prelude::*;
use crate::attacks::bishop_reach;
use crate::attacks::bishop_rays;
use crate::attacks::king_step;
use crate::attacks::knight_jump;
use crate::attacks::knight_mask_of;
use crate::attacks::king_mask_of;
use crate::attacks::pawn_attack;
use crate::attacks::rook_reach;
use crate::attacks::rook_rays;
use crate::bits::bit64;
use crate::bits::lemma_bit_and;
use crate::bits::lemma_bit_not;
use crate::bits::lemma_bit_or;
use crate::bits::lemma_mask_test;
use crate::model::all_mask;
use crate::model::board_ok;
use crate::model::color_mask;
use crate::model::idx_of;
use crate::model::spec_piece_at;
use crate::model::BoardModel;
use crate::position::BitboardBoard;
use crate::types::flip_color;
use crate::types::on_board;
use crate::types::sq_rank;
use crate::types::Color;
use crate::types::Move;
use crate::types::Piece;
use crate::types::PieceKind;
use crate::types::Square;

verus! {

/// The move a piece makes from `from` to `t`: no promotion, and whatever
/// occupies the destination is recorded as captured.
pub open spec fn target_move(m: BoardModel, piece: Piece, from: int, t: int) -> Move {
    Move {
        from: Square(from as u8),
        to: Square(t as u8),
        piece,
        promotion: None,
        captures: spec_piece_at(m, t),
    }
}

/// Where a non-pawn piece of kind `k` may move: its attack reach, own
/// pieces excluded.
pub open spec fn piece_dest(m: BoardModel, c: Color, k: PieceKind, from: int, t: int) -> bool {
    &&& (match k {
        PieceKind::Knight => knight_jump(from, t),
        PieceKind::King => king_step(from, t),
        PieceKind::Rook => rook_reach(all_mask(m), from, t),
        PieceKind::Bishop => bishop_reach(all_mask(m), from, t),
        PieceKind::Queen => rook_reach(all_mask(m), from, t) || bishop_reach(all_mask(m), from, t),
        PieceKind::Pawn => false,
    })
    &&& !bit64(color_mask(m, c), t)
}

/// A pseudo-legal move of a non-pawn piece of kind `k` standing on `from`.
pub open spec fn nonpawn_move_ok(m: BoardModel, c: Color, k: PieceKind, from: int, mv: Move) -> bool {
    &&& on_board(mv.to.0 as int)
    &&& piece_dest(m, c, k, from, mv.to.0 as int)
    &&& mv == target_move(m, (Piece { color: c, kind: k }), from, mv.to.0 as int)
}

/// One square forward for this color's pawns.
pub open spec fn pawn_dir(c: Color) -> int {
    match c {
        Color::White => 8,
        Color::Black => -8,
    }
}

/// The rank a double push may start from.
pub open spec fn pawn_start_rank(c: Color) -> int {
    match c {
        Color::White => 1,
        Color::Black => 6,
    }
}

/// The rank on which a pawn promotes.
pub open spec fn promo_rank(c: Color) -> int {
    match c {
        Color::White => 7,
        Color::Black => 0,
    }
}

/// The promotion field a pawn move must carry: one of the four promotion
/// kinds on the final rank, and nothing elsewhere.
pub open spec fn promo_ok(c: Color, t: int, promotion: Option<PieceKind>) -> bool {
    if sq_rank(t) == promo_rank(c) {
        match promotion {
            Some(k) => k == PieceKind::Queen || k == PieceKind::Rook || k == PieceKind::Bishop
                || k == PieceKind::Knight,
            None => false,
        }
    } else {
        promotion is None
    }
}

/// The square of the pawn an en-passant capture removes: one rank behind
/// the capture's destination, from the mover's point of view.
pub open spec fn ep_victim(c: Color, t: int) -> int {
    t - pawn_dir(c)
}

/// A pseudo-legal pawn move from `from`: a single push onto an empty
/// square, a double push from the start rank across two empty squares, a
/// diagonal capture onto an enemy-occupied square, or an en-passant
/// capture onto the empty recorded target with the passed enemy pawn one
/// rank behind it; pushes and captures onto the final rank promote.
pub open spec fn pawn_move_ok(m: BoardModel, c: Color, from: int, mv: Move) -> bool {
    let t = mv.to.0 as int;
    &&& mv.from == Square(from as u8)
    &&& mv.piece == (Piece { color: c, kind: PieceKind::Pawn })
    &&& on_board(t)
    &&& {
        ||| (t == from + pawn_dir(c) && !bit64(all_mask(m), t) && promo_ok(c, t, mv.promotion)
            && mv.captures is None)
        ||| (t == from + 2 * pawn_dir(c) && sq_rank(from) == pawn_start_rank(c) && !bit64(
            all_mask(m),
            from + pawn_dir(c),
        ) && !bit64(all_mask(m), t) && mv.promotion is None && mv.captures is None)
        ||| (pawn_attack(c, from, t) && bit64(color_mask(m, flip_color(c)), t) && promo_ok(
            c,
            t,
            mv.promotion,
        ) && mv.captures == spec_piece_at(m, t))
        ||| (pawn_attack(c, from, t) && m.ep == Some(Square(t as u8)) && !bit64(all_mask(m), t)
            && bit64(m.bbs[idx_of(flip_color(c), PieceKind::Pawn)], ep_victim(c, t))
            && mv.promotion is None && mv.captures == Some(
            Piece { color: flip_color(c), kind: PieceKind::Pawn },
        ))
    }
}

/// The home square of a color's king.
pub open spec fn king_home(c: Color) -> int {
    match c {
        Color::White => 4,
        Color::Black => 60,
    }
}

/// The kingside castling-right flag of a color.
pub open spec fn kingside_flag(c: Color) -> u8 {
    match c {
        Color::White => crate::model::CASTLE_WHITE_KINGSIDE,
        Color::Black => crate::model::CASTLE_BLACK_KINGSIDE,
    }
}

/// The queenside castling-right flag of a color.
pub open spec fn queenside_flag(c: Color) -> u8 {
    match c {
        Color::White => crate::model::CASTLE_WHITE_QUEENSIDE,
        Color::Black => crate::model::CASTLE_BLACK_QUEENSIDE,
    }
}

/// A castling pseudo-move: the king steps two files from its home square,
/// with the corresponding right intact, the squares it crosses to the
/// rook empty, and the rook on its corner. Whether the crossed squares
/// are attacked is the legality filter's business, not the generator's.
pub open spec fn castle_move_ok(m: BoardModel, c: Color, from: int, mv: Move) -> bool {
    &&& from == king_home(c)
    &&& mv.from == Square(from as u8)
    &&& mv.piece == (Piece { color: c, kind: PieceKind::King })
    &&& mv.promotion is None
    &&& mv.captures is None
    &&& {
        ||| (mv.to == Square((from + 2) as u8) && m.rights & kingside_flag(c) != 0 && !bit64(
            all_mask(m),
            from + 1,
        ) && !bit64(all_mask(m), from + 2) && bit64(
            m.bbs[idx_of(c, PieceKind::Rook)],
            from + 3,
        ))
        ||| (mv.to == Square((from - 2) as u8) && m.rights & queenside_flag(c) != 0 && !bit64(
            all_mask(m),
            from - 1,
        ) && !bit64(all_mask(m), from - 2) && !bit64(all_mask(m), from - 3) && bit64(
            m.bbs[idx_of(c, PieceKind::Rook)],
            from - 4,
        ))
    }
}

/// Everything a king may do from `from`: a single step, or castling.
pub open spec fn king_move_ok(m: BoardModel, c: Color, from: int, mv: Move) -> bool {
    ||| nonpawn_move_ok(m, c, PieceKind::King, from, mv)
    ||| castle_move_ok(m, c, from, mv)
}

/// A king's single step never spans two files along its rank.
pub proof fn lemma_king_step_never_two(f: int, t: int)
    ensures
        king_step(f, t) ==> t != f + 2 && t + 2 != f,
{
    if king_step(f, t) {
        crate::attacks::lemma_coords_rev(f, t);
    }
}

/// A pseudo-legal move: the mover's piece set holds its origin square and
/// its kind's movement rules allow it; a king may also castle.
pub open spec fn pseudo_move_ok(m: BoardModel, c: Color, mv: Move) -> bool {
    let from = mv.from.0 as int;
    &&& on_board(from)
    &&& bit64(m.bbs[idx_of(c, mv.piece.kind)], from)
    &&& (match mv.piece.kind {
        PieceKind::Pawn => pawn_move_ok(m, c, from, mv),
        PieceKind::King => king_move_ok(m, c, from, mv),
        k => nonpawn_move_ok(m, c, k, from, mv),
    })
}

/// Appends one move for every set bit of `mask`: from `square` to that
/// bit's square, capturing whatever stands there.
fn push_targets(
    board: &BitboardBoard,
    piece: Piece,
    square: u8,
    mask: u64,
    moves: &mut Vec<Move>,
)
    requires
        board_ok(board@),
        square < 64,
    ensures
        final(moves)@.len() >= old(moves)@.len(),
        forall|j: int| 0 <= j < old(moves)@.len() ==> final(moves)@[j] == old(moves)@[j],
        forall|j: int|
            old(moves)@.len() <= j < final(moves)@.len() ==> bit64(
                mask,
                (#[trigger] final(moves)@[j]).to.0 as int,
            ) && final(moves)@[j] == target_move(
                board@,
                piece,
                square as int,
                final(moves)@[j].to.0 as int,
            ),
        forall|t: int|
            bit64(mask, t) ==> exists|j: int|
                old(moves)@.len() <= j < final(moves)@.len() && (#[trigger] final(moves)@[j]).to.0
                    == t,
        forall|j1: int, j2: int|
            old(moves)@.len() <= j1 < j2 < final(moves)@.len() ==> (#[trigger] final(moves)@[j1]).to
                != (#[trigger] final(moves)@[j2]).to,
{
    let ghost base = moves@.len() as int;
    let mut bits: u64 = mask;
    while bits != 0
        invariant
            board_ok(board@),
            square < 64,
            0 <= base <= moves@.len(),
            forall|j: int| 0 <= j < base ==> moves@[j] == old(moves)@[j],
            forall|f: int| bit64(bits, f) ==> bit64(mask, f),
            forall|j: int|
                base <= j < moves@.len() ==> bit64(mask, (#[trigger] moves@[j]).to.0 as int)
                    && !bit64(bits, moves@[j].to.0 as int) && moves@[j] == target_move(
                    board@,
                    piece,
                    square as int,
                    moves@[j].to.0 as int,
                ),
            forall|t: int|
                bit64(mask, t) && !bit64(bits, t) ==> exists|j: int|
                    base <= j < moves@.len() && (#[trigger] moves@[j]).to.0 == t,
            forall|j1: int, j2: int|
                base <= j1 < j2 < moves@.len() ==> (#[trigger] moves@[j1]).to != (
                #[trigger] moves@[j2]).to,
        decreases bits,
    {
        proof {
            crate::bits::lemma_lowest_bit(bits);
        }
        let t: u8 = bits.trailing_zeros() as u8;
        let ghost oldbits = bits;
        bits = bits & (bits - 1);
        proof {
            assert forall|f: int| #[trigger]
                bit64(bits, f) == (f != t as int && bit64(oldbits, f)) by {
                crate::bits::lemma_clear_bit(
                    oldbits,
                    vstd::std_specs::bits::u64_trailing_zeros(oldbits) as int,
                    f,
                );
            }
        }
        let captured = board.piece_at(Square(t));
        let ghost before = moves@;
        let new_move = Move {
            from: Square(square),
            to: Square(t),
            piece,
            promotion: None,
            captures: captured,
        };
        moves.push(new_move);
        proof {
            assert(moves@ == before.push(new_move));
            assert(moves@.len() == before.len() + 1);
            assert forall|j: int| 0 <= j < before.len() implies moves@[j] == before[j] by {
                assert(moves@[j] == before.push(new_move)[j]);
            }
            assert(moves@[moves@.len() - 1] == new_move);
            assert(new_move == target_move(board@, piece, square as int, t as int));
            assert forall|j: int|
                base <= j < moves@.len() implies bit64(
                mask,
                (#[trigger] moves@[j]).to.0 as int,
            ) && !bit64(bits, moves@[j].to.0 as int) && moves@[j] == target_move(
                board@,
                piece,
                square as int,
                moves@[j].to.0 as int,
            ) by {
                if j < before.len() {
                    assert(moves@[j] == before[j]);
                    assert(bit64(mask, (before[j]).to.0 as int) && !bit64(
                        oldbits,
                        before[j].to.0 as int,
                    ) && before[j] == target_move(
                        board@,
                        piece,
                        square as int,
                        before[j].to.0 as int,
                    ));
                } else {
                    assert(moves@[j] == new_move);
                }
            }
            assert forall|u: int|
                bit64(mask, u) && !bit64(bits, u) implies exists|j: int|
                base <= j < moves@.len() && (#[trigger] moves@[j]).to.0 == u by {
                if u == t as int {
                    assert(moves@[moves@.len() - 1].to.0 == u);
                } else {
                    assert(bit64(mask, u) && !bit64(oldbits, u));
                    let j = choose|j: int|
                        base <= j < before.len() && (#[trigger] before[j]).to.0 == u;
                    assert(moves@[j] == before[j]);
                    assert(moves@[j].to.0 == u);
                }
            }
        }
    }
    proof {
        broadcast use crate::bits::lemma_bit_zero;

    }
}

/// A pawn move shape: fixed endpoints and capture, promotion left open.
pub open spec fn pawn_shape(c: Color, from: int, to: int, cap: Option<Piece>, promo: Option<PieceKind>) -> Move {
    Move {
        from: Square(from as u8),
        to: Square(to as u8),
        piece: Piece { color: c, kind: PieceKind::Pawn },
        promotion: promo,
        captures: cap,
    }
}

/// Appends the pawn moves landing on `to`: the four promotion moves when
/// `to` is the final rank, and one plain move otherwise.
fn push_pawn_shapes(
    color: Color,
    from: u8,
    to: u8,
    captured: Option<Piece>,
    moves: &mut Vec<Move>,
)
    requires
        from < 64,
        to < 64,
    ensures
        final(moves)@.len() >= old(moves)@.len(),
        forall|j: int| 0 <= j < old(moves)@.len() ==> final(moves)@[j] == old(moves)@[j],
        forall|j: int|
            old(moves)@.len() <= j < final(moves)@.len() ==> (#[trigger] final(moves)@[j])
                == pawn_shape(
                color,
                from as int,
                to as int,
                captured,
                final(moves)@[j].promotion,
            ) && promo_ok(color, to as int, final(moves)@[j].promotion),
        forall|promo: Option<PieceKind>|
            promo_ok(color, to as int, promo) ==> exists|j: int|
                old(moves)@.len() <= j < final(moves)@.len() && (#[trigger] final(moves)@[j]).promotion
                    == promo,
        forall|j1: int, j2: int|
            old(moves)@.len() <= j1 < j2 < final(moves)@.len() ==> (#[trigger] final(moves)@[j1]).promotion
                != (#[trigger] final(moves)@[j2]).promotion,
{
    let piece = Piece { color, kind: PieceKind::Pawn };
    let promotes = match color {
        Color::White => to / 8 == 7,
        Color::Black => to / 8 == 0,
    };
    let ghost base = moves@.len() as int;
    if promotes {
        moves.push(
            Move {
                from: Square(from),
                to: Square(to),
                piece,
                promotion: Some(PieceKind::Queen),
                captures: captured,
            },
        );
        moves.push(
            Move {
                from: Square(from),
                to: Square(to),
                piece,
                promotion: Some(PieceKind::Rook),
                captures: captured,
            },
        );
        moves.push(
            Move {
                from: Square(from),
                to: Square(to),
                piece,
                promotion: Some(PieceKind::Bishop),
                captures: captured,
            },
        );
        moves.push(
            Move {
                from: Square(from),
                to: Square(to),
                piece,
                promotion: Some(PieceKind::Knight),
                captures: captured,
            },
        );
        proof {
            assert(moves@[base].promotion == Some(PieceKind::Queen));
            assert(moves@[base + 1].promotion == Some(PieceKind::Rook));
            assert(moves@[base + 2].promotion == Some(PieceKind::Bishop));
            assert(moves@[base + 3].promotion == Some(PieceKind::Knight));
        }
    } else {
        moves.push(
            Move {
                from: Square(from),
                to: Square(to),
                piece,
                promotion: None,
                captures: captured,
            },
        );
        proof {
            assert(moves@[base].promotion == None::<PieceKind>);
        }
    }
}

/// The board lets a pawn of `c` capture en passant onto `t`: the target
/// is recorded and empty, and the passed enemy pawn stands behind it.
pub open spec fn ep_capture_possible(m: BoardModel, c: Color, t: int) -> bool {
    &&& m.ep == Some(Square(t as u8))
    &&& !bit64(all_mask(m), t)
    &&& bit64(m.bbs[idx_of(flip_color(c), PieceKind::Pawn)], ep_victim(c, t))
}

/// The en-passant capture move itself.
pub open spec fn ep_move(c: Color, from: int, t: int) -> Move {
    pawn_shape(c, from, t, Some(Piece { color: flip_color(c), kind: PieceKind::Pawn }), None)
}

/// Appends the en-passant capture onto `t` when the board allows one,
/// and nothing otherwise.
fn try_push_ep_capture(
    board: &BitboardBoard,
    square: u8,
    color: Color,
    t: u8,
    moves: &mut Vec<Move>,
)
    requires
        board_ok(board@),
        square < 64,
        t < 64,
        pawn_attack(color, square as int, t as int),
    ensures
        ep_capture_possible(board@, color, t as int) ==> final(moves)@ == old(moves)@.push(
            ep_move(color, square as int, t as int),
        ),
        !ep_capture_possible(board@, color, t as int) ==> final(moves)@ == old(moves)@,
{
    let ep_matches = match board.en_passant_square() {
        Some(sq) => sq.0 == t,
        None => false,
    };
    if !ep_matches {
        return ;
    }
    let all = board.get_all_pieces_mask();
    proof {
        lemma_mask_test(all, t as int);
    }
    if all & (1u64 << (t as u64)) != 0 {
        return ;
    }
    let victim_i: i16 = t as i16 + (if color == Color::White {
        -8i16
    } else {
        8i16
    });
    if victim_i < 0 || victim_i >= 64 {
        return ;
    }
    let victim = victim_i as u8;
    let enemy_pawns = board.bitboard(board.get_bitboard_index(color.opposite(), PieceKind::Pawn));
    proof {
        lemma_mask_test(enemy_pawns, victim as int);
    }
    if enemy_pawns & (1u64 << (victim as u64)) == 0 {
        return ;
    }
    moves.push(
        Move {
            from: Square(square),
            to: Square(t),
            piece: Piece { color, kind: PieceKind::Pawn },
            promotion: None,
            captures: Some(Piece { color: color.opposite(), kind: PieceKind::Pawn }),
        },
    );
}

/// The naive generator: it derives each piece's moves square by square
/// from the movement rules, with no precomputed tables.
pub struct NaiveMoveGenerator;

impl NaiveMoveGenerator {
    /// A new naive generator.
    pub fn new() -> NaiveMoveGenerator {
        Self
    }

    /// Appends every pseudo-legal pawn move from `square`: single and
    /// double pushes onto empty squares, diagonal captures onto
    /// enemy-occupied squares, each promoting on the final rank.
    #[verifier::rlimit(80)]
    pub fn generate_pawn_moves(
        &self,
        board: &BitboardBoard,
        square: u8,
        color: Color,
        moves: &mut Vec<Move>,
    )
        requires
            board_ok(board@),
            square < 64,
        ensures
            final(moves)@.len() >= old(moves)@.len(),
            forall|j: int| 0 <= j < old(moves)@.len() ==> final(moves)@[j] == old(moves)@[j],
            forall|j: int|
                old(moves)@.len() <= j < final(moves)@.len() ==> pawn_move_ok(
                    board@,
                    color,
                    square as int,
                    #[trigger] final(moves)@[j],
                ),
            forall|mv: Move|
                pawn_move_ok(board@, color, square as int, mv) ==> exists|j: int|
                    old(moves)@.len() <= j < final(moves)@.len() && final(moves)@[j] == mv,
            forall|j1: int, j2: int|
                old(moves)@.len() <= j1 < j2 < final(moves)@.len() ==> (#[trigger] final(moves)@[j1])
                    != (#[trigger] final(moves)@[j2]),
    {
        let ghost m = board@;
        let ghost base = moves@.len() as int;
        let ghost fi = square as int;
        let all_pieces = board.get_all_pieces_mask();
        let enemy = board.get_mask_for_color(color.opposite());
        let sq16 = square as i16;
        let forward: i16 = if color == Color::White {
            8
        } else {
            -8
        };
        let ghost mut mid_push: int = base;

        let one_forward = sq16 + forward;
        if one_forward >= 0 && one_forward < 64 {
            let one = one_forward as u8;
            proof {
                lemma_mask_test(all_pieces, one as int);
            }
            if all_pieces & (1u64 << (one as u64)) == 0 {
                push_pawn_shapes(color, square, one, None, moves);
                proof {
                    mid_push = moves@.len() as int;
                }
                if (color == Color::White && square / 8 == 1) || (color == Color::Black && square
                    / 8 == 6) {
                    let two_forward = sq16 + 2 * forward;
                    if two_forward >= 0 && two_forward < 64 {
                        let two = two_forward as u8;
                        proof {
                            lemma_mask_test(all_pieces, two as int);
                        }
                        if all_pieces & (1u64 << (two as u64)) == 0 {
                            proof {
                                assert(sq_rank(two as int) != promo_rank(color));
                            }
                            push_pawn_shapes(color, square, two, None, moves);
                            proof {
                                assert forall|promo: Option<PieceKind>|
                                    promo_ok(color, two as int, promo) implies exists|j: int|
                                    mid_push <= j < moves@.len() && #[trigger] moves@[j]
                                        == pawn_shape(color, fi, two as int, None, promo) by {
                                    let j = choose|j: int|
                                        mid_push <= j < moves@.len() && (#[trigger] moves@[j]).promotion
                                            == promo;
                                    assert(moves@[j] == pawn_shape(
                                        color,
                                        fi,
                                        two as int,
                                        None,
                                        promo,
                                    ));
                                }
                            }
                        }
                    }
                }
            }
        }
        let ghost snap1 = moves@;
        let ghost a1 = moves@.len() as int;

        let cap_left = sq16 + (if color == Color::White {
            7i16
        } else {
            -7i16
        });
        if cap_left >= 0 && cap_left < 64 {
            let t = cap_left as u8;
            let file_ok = if color == Color::White {
                t % 8 != 7
            } else {
                t % 8 != 0
            };
            proof {
                lemma_mask_test(enemy, t as int);
                if color == Color::White {
                    crate::attacks::lemma_pawn_white_geometry(fi, t as int);
                } else {
                    crate::attacks::lemma_pawn_black_geometry(fi, t as int);
                }
            }
            if file_ok {
                if enemy & (1u64 << (t as u64)) != 0 {
                    let captured = board.piece_at(Square(t));
                    push_pawn_shapes(color, square, t, captured, moves);
                } else {
                    try_push_ep_capture(board, square, color, t, moves);
                }
            }
        }
        let ghost snap2 = moves@;
        let ghost a2 = moves@.len() as int;

        let cap_right = sq16 + (if color == Color::White {
            9i16
        } else {
            -9i16
        });
        if cap_right >= 0 && cap_right < 64 {
            let t = cap_right as u8;
            let file_ok = if color == Color::White {
                t % 8 != 0
            } else {
                t % 8 != 7
            };
            proof {
                lemma_mask_test(enemy, t as int);
                if color == Color::White {
                    crate::attacks::lemma_pawn_white_geometry(fi, t as int);
                } else {
                    crate::attacks::lemma_pawn_black_geometry(fi, t as int);
                }
            }
            if file_ok {
                if enemy & (1u64 << (t as u64)) != 0 {
                    let captured = board.piece_at(Square(t));
                    push_pawn_shapes(color, square, t, captured, moves);
                } else {
                    try_push_ep_capture(board, square, color, t, moves);
                }
            }
        }
        let ghost snap3 = moves@;

        proof {
            let dir = pawn_dir(color);
            assert forall|j: int| 0 <= j < a1 implies moves@[j] == snap1[j] by {
                assert(snap2[j] == snap1[j]);
            }
            assert forall|j: int| 0 <= j < a2 implies moves@[j] == snap2[j] by {}
            assert forall|mv: Move|
                pawn_move_ok(m, color, fi, mv) implies exists|j: int|
                base <= j < moves@.len() && moves@[j] == mv by {
                let t = mv.to.0 as int;
                if t == fi + dir && !bit64(all_mask(m), t) && promo_ok(color, t, mv.promotion)
                    && mv.captures is None {
                    assert(mv == pawn_shape(color, fi, t, None, mv.promotion));
                    let j = choose|j: int|
                        base <= j < mid_push && (#[trigger] snap1[j]).promotion == mv.promotion;
                    assert(snap1[j] == mv);
                    assert(moves@[j] == mv);
                } else if t == fi + 2 * dir && sq_rank(fi) == pawn_start_rank(color) && !bit64(
                    all_mask(m),
                    fi + dir,
                ) && !bit64(all_mask(m), t) && mv.promotion is None && mv.captures is None {
                    assert(mv == pawn_shape(color, fi, t, None, None));
                    crate::attacks::lemma_coords(fi, 2 * (dir / 8), 0);
                    assert(sq_rank(t) != promo_rank(color));
                    assert(promo_ok(color, t, mv.promotion));
                    let j = choose|j: int|
                        mid_push <= j < a1 && #[trigger] snap1[j] == pawn_shape(
                            color,
                            fi,
                            t,
                            None,
                            mv.promotion,
                        );
                    assert(snap1[j] == mv);
                    assert(moves@[j] == mv);
                } else if pawn_attack(color, fi, t) && bit64(color_mask(m, flip_color(color)), t)
                    && promo_ok(color, t, mv.promotion) && mv.captures == spec_piece_at(m, t) {
                    if color == Color::White {
                        crate::attacks::lemma_pawn_white_geometry(fi, t);
                    } else {
                        crate::attacks::lemma_pawn_black_geometry(fi, t);
                    }
                    assert(mv == pawn_shape(color, fi, t, spec_piece_at(m, t), mv.promotion));
                    if (color == Color::White && t == fi + 7) || (color == Color::Black && t == fi
                        - 7) {
                        let j = choose|j: int|
                            a1 <= j < a2 && (#[trigger] snap2[j]).promotion == mv.promotion;
                        assert(snap2[j] == mv);
                        assert(moves@[j] == mv);
                    } else {
                        let j = choose|j: int|
                            a2 <= j < moves@.len() && (#[trigger] moves@[j]).promotion
                                == mv.promotion;
                        assert(moves@[j] == mv);
                    }
                } else {
                    assert(pawn_attack(color, fi, t) && m.ep == Some(Square(t as u8)) && !bit64(
                        all_mask(m),
                        t,
                    ) && bit64(m.bbs[idx_of(flip_color(color), PieceKind::Pawn)], ep_victim(
                        color,
                        t,
                    )) && mv.promotion is None && mv.captures == Some(
                        Piece { color: flip_color(color), kind: PieceKind::Pawn },
                    ));
                    assert(ep_capture_possible(m, color, t));
                    assert(mv == ep_move(color, fi, t));
                    if color == Color::White {
                        crate::attacks::lemma_pawn_white_geometry(fi, t);
                    } else {
                        crate::attacks::lemma_pawn_black_geometry(fi, t);
                    }
                    assert(!bit64(color_mask(m, flip_color(color)), t)) by {
                        let elo: int = if flip_color(color) == Color::White {
                            0
                        } else {
                            6
                        };
                        crate::model::lemma_union_range_bits(m.bbs, elo, elo + 6, t);
                        crate::model::lemma_union_range_bits(m.bbs, 0, 12, t);
                        if bit64(color_mask(m, flip_color(color)), t) {
                            let i = choose|i: int|
                                elo <= i < elo + 6 && bit64(#[trigger] m.bbs[i], t);
                            assert(bit64(all_mask(m), t));
                        }
                    }
                    if (color == Color::White && t == fi + 7) || (color == Color::Black && t == fi
                        - 7) {
                        assert(snap2 == snap1.push(ep_move(color, fi, t)));
                        assert(snap2[a1] == mv);
                        assert(moves@[a1] == mv);
                    } else {
                        assert(moves@ == snap2.push(ep_move(color, fi, t)));
                        assert(moves@[a2] == mv);
                    }
                }
            }
        }
    }


    /// Appends every pseudo-legal knight move from `square`.
    pub fn generate_knight_moves(
        &self,
        board: &BitboardBoard,
        square: u8,
        color: Color,
        moves: &mut Vec<Move>,
    )
        requires
            board_ok(board@),
            square < 64,
        ensures
            final(moves)@.len() >= old(moves)@.len(),
            forall|j: int| 0 <= j < old(moves)@.len() ==> final(moves)@[j] == old(moves)@[j],
            forall|j: int|
                old(moves)@.len() <= j < final(moves)@.len() ==> nonpawn_move_ok(
                    board@,
                    color,
                    PieceKind::Knight,
                    square as int,
                    #[trigger] final(moves)@[j],
                ),
            forall|mv: Move|
                nonpawn_move_ok(board@, color, PieceKind::Knight, square as int, mv)
                    ==> exists|j: int|
                    old(moves)@.len() <= j < final(moves)@.len() && final(moves)@[j] == mv,
            forall|j1: int, j2: int|
                old(moves)@.len() <= j1 < j2 < final(moves)@.len() ==> (#[trigger] final(moves)@[j1])
                    != (#[trigger] final(moves)@[j2]),
    {
        let jumps = knight_mask_of(square);
        let own = board.get_mask_for_color(color);
        let mask = jumps & !own;
        proof {
            assert forall|t: int|
                bit64(mask, t) <==> (knight_jump(square as int, t) && !bit64(
                    color_mask(board@, color),
                    t,
                )) by {
                lemma_bit_and(jumps, !own, t);
                lemma_bit_not(own, t);
            }
        }
        push_targets(board, Piece { color, kind: PieceKind::Knight }, square, mask, moves);
        proof {
            assert forall|mv: Move|
                nonpawn_move_ok(board@, color, PieceKind::Knight, square as int, mv)
                    implies exists|j: int|
                old(moves)@.len() <= j < moves@.len() && moves@[j] == mv by {
                let t = mv.to.0 as int;
                lemma_bit_not(own, t);
                lemma_bit_and(jumps, !own, t);
                assert(bit64(mask, t));
                let j = choose|j: int|
                    old(moves)@.len() <= j < moves@.len() && (#[trigger] moves@[j]).to.0 == t;
                assert(moves@[j] == mv);
            }
        }
    }

    /// Appends every pseudo-legal king move from `square`; castling is not
    /// generated here.
    pub fn generate_king_moves(
        &self,
        board: &BitboardBoard,
        square: u8,
        color: Color,
        moves: &mut Vec<Move>,
    )
        requires
            board_ok(board@),
            square < 64,
        ensures
            final(moves)@.len() >= old(moves)@.len(),
            forall|j: int| 0 <= j < old(moves)@.len() ==> final(moves)@[j] == old(moves)@[j],
            forall|j: int|
                old(moves)@.len() <= j < final(moves)@.len() ==> king_move_ok(
                    board@,
                    color,
                    square as int,
                    #[trigger] final(moves)@[j],
                ),
            forall|mv: Move|
                king_move_ok(board@, color, square as int, mv) ==> exists|j: int|
                    old(moves)@.len() <= j < final(moves)@.len() && final(moves)@[j] == mv,
            forall|j1: int, j2: int|
                old(moves)@.len() <= j1 < j2 < final(moves)@.len() ==> (#[trigger] final(moves)@[j1])
                    != (#[trigger] final(moves)@[j2]),
    {
        let ghost m = board@;
        let ghost fi = square as int;
        let steps = king_mask_of(square);
        let own = board.get_mask_for_color(color);
        let mask = steps & !own;
        proof {
            assert forall|t: int|
                bit64(mask, t) <==> (king_step(square as int, t) && !bit64(
                    color_mask(board@, color),
                    t,
                )) by {
                lemma_bit_and(steps, !own, t);
                lemma_bit_not(own, t);
            }
        }
        push_targets(board, Piece { color, kind: PieceKind::King }, square, mask, moves);
        let ghost midk = moves@.len() as int;
        let ghost snapk = moves@;

        let home: u8 = if color == Color::White {
            4
        } else {
            60
        };
        if square == home {
            let all = board.get_all_pieces_mask();
            let rooks = board.bitboard(board.get_bitboard_index(color, PieceKind::Rook));
            let rights = board.castling_rights();
            let ks_flag: u8 = if color == Color::White {
                crate::model::CASTLE_WHITE_KINGSIDE
            } else {
                crate::model::CASTLE_BLACK_KINGSIDE
            };
            let qs_flag: u8 = if color == Color::White {
                crate::model::CASTLE_WHITE_QUEENSIDE
            } else {
                crate::model::CASTLE_BLACK_QUEENSIDE
            };
            proof {
                lemma_mask_test(all, home as int + 1);
                lemma_mask_test(all, home as int + 2);
                lemma_mask_test(rooks, home as int + 3);
                lemma_mask_test(all, home as int - 1);
                lemma_mask_test(all, home as int - 2);
                lemma_mask_test(all, home as int - 3);
                lemma_mask_test(rooks, home as int - 4);
            }
            if rights & ks_flag != 0 && all & (1u64 << ((home + 1) as u64)) == 0 && all & (1u64
                << ((home + 2) as u64)) == 0 && rooks & (1u64 << ((home + 3) as u64)) != 0 {
                moves.push(
                    Move {
                        from: Square(square),
                        to: Square(home + 2),
                        piece: Piece { color, kind: PieceKind::King },
                        promotion: None,
                        captures: None,
                    },
                );
                proof {
                    assert(castle_move_ok(m, color, fi, moves@[moves@.len() - 1]));
                }
            }
            if rights & qs_flag != 0 && all & (1u64 << ((home - 1) as u64)) == 0 && all & (1u64
                << ((home - 2) as u64)) == 0 && all & (1u64 << ((home - 3) as u64)) == 0 && rooks
                & (1u64 << ((home - 4) as u64)) != 0 {
                moves.push(
                    Move {
                        from: Square(square),
                        to: Square(home - 2),
                        piece: Piece { color, kind: PieceKind::King },
                        promotion: None,
                        captures: None,
                    },
                );
                proof {
                    assert(castle_move_ok(m, color, fi, moves@[moves@.len() - 1]));
                }
            }
        }

        proof {
            let ghost ks_move = (Move {
                from: Square(square),
                to: Square((square + 2) as u8),
                piece: Piece { color, kind: PieceKind::King },
                promotion: None,
                captures: None,
            });
            let ghost qs_move = (Move {
                from: Square(square),
                to: Square((square - 2) as u8),
                piece: Piece { color, kind: PieceKind::King },
                promotion: None,
                captures: None,
            });
            assert forall|j: int| 0 <= j < midk implies moves@[j] == snapk[j] by {}
            assert forall|j1: int, j2: int|
                old(moves)@.len() <= j1 < j2 < moves@.len() implies (#[trigger] moves@[j1]) != (
            #[trigger] moves@[j2]) by {
                if j1 < midk && j2 >= midk {
                    lemma_king_step_never_two(fi, moves@[j1].to.0 as int);
                }
            }
            assert forall|mv: Move|
                king_move_ok(m, color, fi, mv) implies exists|j: int|
                old(moves)@.len() <= j < moves@.len() && moves@[j] == mv by {
                if nonpawn_move_ok(m, color, PieceKind::King, fi, mv) {
                    let t = mv.to.0 as int;
                    lemma_bit_not(own, t);
                    lemma_bit_and(steps, !own, t);
                    assert(bit64(mask, t));
                    let j = choose|j: int|
                        old(moves)@.len() <= j < midk && (#[trigger] snapk[j]).to.0 == t;
                    assert(snapk[j] == mv);
                    assert(moves@[j] == mv);
                } else {
                    assert(castle_move_ok(m, color, fi, mv));
                    if mv.to == Square((fi + 2) as u8) {
                        assert(mv == ks_move);
                        assert(moves@[midk] == mv);
                    } else {
                        assert(mv == qs_move);
                        if castle_move_ok(m, color, fi, ks_move) {
                            assert(moves@[midk + 1] == mv);
                        } else {
                            assert(moves@[midk] == mv);
                        }
                    }
                }
            }
        }
    }

    /// Appends every pseudo-legal rook move from `square`.
    pub fn generate_rook_moves(
        &self,
        board: &BitboardBoard,
        square: u8,
        color: Color,
        moves: &mut Vec<Move>,
    )
        requires
            board_ok(board@),
            square < 64,
        ensures
            final(moves)@.len() >= old(moves)@.len(),
            forall|j: int| 0 <= j < old(moves)@.len() ==> final(moves)@[j] == old(moves)@[j],
            forall|j: int|
                old(moves)@.len() <= j < final(moves)@.len() ==> nonpawn_move_ok(
                    board@,
                    color,
                    PieceKind::Rook,
                    square as int,
                    #[trigger] final(moves)@[j],
                ),
            forall|mv: Move|
                nonpawn_move_ok(board@, color, PieceKind::Rook, square as int, mv) ==> exists|
                    j: int,
                |
                    old(moves)@.len() <= j < final(moves)@.len() && final(moves)@[j] == mv,
            forall|j1: int, j2: int|
                old(moves)@.len() <= j1 < j2 < final(moves)@.len() ==> (#[trigger] final(moves)@[j1])
                    != (#[trigger] final(moves)@[j2]),
    {
        let occ = board.get_all_pieces_mask();
        let rays = rook_rays(occ, square);
        let own = board.get_mask_for_color(color);
        let mask = rays & !own;
        proof {
            assert forall|t: int|
                bit64(mask, t) <==> (rook_reach(all_mask(board@), square as int, t) && !bit64(
                    color_mask(board@, color),
                    t,
                )) by {
                lemma_bit_and(rays, !own, t);
                lemma_bit_not(own, t);
            }
        }
        push_targets(board, Piece { color, kind: PieceKind::Rook }, square, mask, moves);
        proof {
            assert forall|mv: Move|
                nonpawn_move_ok(board@, color, PieceKind::Rook, square as int, mv) implies exists|
                j: int,
            |
                old(moves)@.len() <= j < moves@.len() && moves@[j] == mv by {
                let t = mv.to.0 as int;
                assert(bit64(rays, t));
                lemma_bit_not(own, t);
                lemma_bit_and(rays, !own, t);
                assert(bit64(mask, t));
                let j = choose|j: int|
                    old(moves)@.len() <= j < moves@.len() && (#[trigger] moves@[j]).to.0 == t;
                assert(moves@[j] == mv);
            }
        }
    }

    /// Appends every pseudo-legal bishop move from `square`.
    pub fn generate_bishop_moves(
        &self,
        board: &BitboardBoard,
        square: u8,
        color: Color,
        moves: &mut Vec<Move>,
    )
        requires
            board_ok(board@),
            square < 64,
        ensures
            final(moves)@.len() >= old(moves)@.len(),
            forall|j: int| 0 <= j < old(moves)@.len() ==> final(moves)@[j] == old(moves)@[j],
            forall|j: int|
                old(moves)@.len() <= j < final(moves)@.len() ==> nonpawn_move_ok(
                    board@,
                    color,
                    PieceKind::Bishop,
                    square as int,
                    #[trigger] final(moves)@[j],
                ),
            forall|mv: Move|
                nonpawn_move_ok(board@, color, PieceKind::Bishop, square as int, mv) ==> exists|
                    j: int,
                |
                    old(moves)@.len() <= j < final(moves)@.len() && final(moves)@[j] == mv,
            forall|j1: int, j2: int|
                old(moves)@.len() <= j1 < j2 < final(moves)@.len() ==> (#[trigger] final(moves)@[j1])
                    != (#[trigger] final(moves)@[j2]),
    {
        let occ = board.get_all_pieces_mask();
        let rays = bishop_rays(occ, square);
        let own = board.get_mask_for_color(color);
        let mask = rays & !own;
        proof {
            assert forall|t: int|
                bit64(mask, t) <==> (bishop_reach(all_mask(board@), square as int, t) && !bit64(
                    color_mask(board@, color),
                    t,
                )) by {
                lemma_bit_and(rays, !own, t);
                lemma_bit_not(own, t);
            }
        }
        push_targets(board, Piece { color, kind: PieceKind::Bishop }, square, mask, moves);
        proof {
            assert forall|mv: Move|
                nonpawn_move_ok(board@, color, PieceKind::Bishop, square as int, mv)
                    implies exists|j: int|
                old(moves)@.len() <= j < moves@.len() && moves@[j] == mv by {
                let t = mv.to.0 as int;
                assert(bit64(rays, t));
                lemma_bit_not(own, t);
                lemma_bit_and(rays, !own, t);
                assert(bit64(mask, t));
                let j = choose|j: int|
                    old(moves)@.len() <= j < moves@.len() && (#[trigger] moves@[j]).to.0 == t;
                assert(moves@[j] == mv);
            }
        }
    }

    /// Appends every pseudo-legal queen move from `square`: the union of
    /// the rook and bishop rays.
    pub fn generate_queen_moves(
        &self,
        board: &BitboardBoard,
        square: u8,
        color: Color,
        moves: &mut Vec<Move>,
    )
        requires
            board_ok(board@),
            square < 64,
        ensures
            final(moves)@.len() >= old(moves)@.len(),
            forall|j: int| 0 <= j < old(moves)@.len() ==> final(moves)@[j] == old(moves)@[j],
            forall|j: int|
                old(moves)@.len() <= j < final(moves)@.len() ==> nonpawn_move_ok(
                    board@,
                    color,
                    PieceKind::Queen,
                    square as int,
                    #[trigger] final(moves)@[j],
                ),
            forall|mv: Move|
                nonpawn_move_ok(board@, color, PieceKind::Queen, square as int, mv) ==> exists|
                    j: int,
                |
                    old(moves)@.len() <= j < final(moves)@.len() && final(moves)@[j] == mv,
            forall|j1: int, j2: int|
                old(moves)@.len() <= j1 < j2 < final(moves)@.len() ==> (#[trigger] final(moves)@[j1])
                    != (#[trigger] final(moves)@[j2]),
    {
        let occ = board.get_all_pieces_mask();
        let rays_r = rook_rays(occ, square);
        let rays_b = bishop_rays(occ, square);
        let rays = rays_r | rays_b;
        let own = board.get_mask_for_color(color);
        let mask = rays & !own;
        proof {
            assert forall|t: int|
                bit64(mask, t) <==> ((rook_reach(all_mask(board@), square as int, t)
                    || bishop_reach(all_mask(board@), square as int, t)) && !bit64(
                    color_mask(board@, color),
                    t,
                )) by {
                lemma_bit_and(rays, !own, t);
                lemma_bit_not(own, t);
                lemma_bit_or(rays_r, rays_b, t);
            }
        }
        push_targets(board, Piece { color, kind: PieceKind::Queen }, square, mask, moves);
        proof {
            assert forall|mv: Move|
                nonpawn_move_ok(board@, color, PieceKind::Queen, square as int, mv) implies exists|
                j: int,
            |
                old(moves)@.len() <= j < moves@.len() && moves@[j] == mv by {
                let t = mv.to.0 as int;
                if rook_reach(all_mask(board@), square as int, t) {
                    assert(bit64(rays_r, t));
                } else {
                    assert(bit64(rays_b, t));
                }
                lemma_bit_or(rays_r, rays_b, t);
                lemma_bit_not(own, t);
                lemma_bit_and(rays, !own, t);
                assert(bit64(mask, t));
                let j = choose|j: int|
                    old(moves)@.len() <= j < moves@.len() && (#[trigger] moves@[j]).to.0 == t;
                assert(moves@[j] == mv);
            }
        }
    }
}

} // verus!

verus! {

/// A strategy that enumerates every pseudo-legal move of the side to
/// move. Any implementation must produce exactly the moves the movement
/// rules allow, each once.
pub trait BitboardMoveGenerator {
    /// Every pseudo-legal move for the side to move, each exactly once.
    fn generate_moves(&self, board: &BitboardBoard) -> (r: Vec<Move>)
        requires
            board_ok(board@),
        ensures
            forall|mv: Move| #[trigger]
                r@.contains(mv) <==> pseudo_move_ok(board@, board@.side, mv),
            r@.no_duplicates(),
    ;
}

impl BitboardMoveGenerator for NaiveMoveGenerator {
    fn generate_moves(&self, board: &BitboardBoard) -> (r: Vec<Move>) {
        let ghost m = board@;
        let color = board.side_to_move();
        let mut pseudo: Vec<Move> = Vec::new();
        let base: usize = match color {
            Color::White => 0,
            Color::Black => 6,
        };
        let mut off: usize = 0;
        while off < 6
            invariant
                board_ok(board@),
                m == board@,
                color == m.side,
                base == (match color {
                    Color::White => 0int,
                    Color::Black => 6int,
                }),
                0 <= off <= 6,
                forall|mv: Move| #[trigger]
                    pseudo@.contains(mv) <==> (pseudo_move_ok(m, color, mv) && idx_of(
                        color,
                        mv.piece.kind,
                    ) < base + off),
                pseudo@.no_duplicates(),
            decreases 6 - off,
        {
            let i = base + off;
            let ghost kind = (match off {
                0 => PieceKind::Pawn,
                1 => PieceKind::Knight,
                2 => PieceKind::Bishop,
                3 => PieceKind::Rook,
                4 => PieceKind::Queen,
                _ => PieceKind::King,
            });
            proof {
                assert(idx_of(color, kind) == i as int);
            }
            let mut bits: u64 = board.bitboard(i);
            let ghost bbi: u64 = m.bbs[i as int];
            while bits != 0
                invariant
                    board_ok(board@),
                    m == board@,
                    color == m.side,
                    0 <= off < 6,
                    i == base + off,
                    base == (match color {
                        Color::White => 0int,
                        Color::Black => 6int,
                    }),
                    kind == (if off == 0 {
                        PieceKind::Pawn
                    } else if off == 1 {
                        PieceKind::Knight
                    } else if off == 2 {
                        PieceKind::Bishop
                    } else if off == 3 {
                        PieceKind::Rook
                    } else if off == 4 {
                        PieceKind::Queen
                    } else {
                        PieceKind::King
                    }),
                    idx_of(color, kind) == i as int,
                    bbi == m.bbs[i as int],
                    forall|f: int| bit64(bits, f) ==> bit64(bbi, f),
                    forall|mv: Move| #[trigger]
                        pseudo@.contains(mv) <==> (pseudo_move_ok(m, color, mv) && (idx_of(
                            color,
                            mv.piece.kind,
                        ) < i as int || (idx_of(color, mv.piece.kind) == i as int && !bit64(
                            bits,
                            mv.from.0 as int,
                        )))),
                    pseudo@.no_duplicates(),
                decreases bits,
            {
                proof {
                    crate::bits::lemma_lowest_bit(bits);
                }
                let square: u8 = bits.trailing_zeros() as u8;
                let ghost oldbits = bits;
                bits = bits & (bits - 1);
                proof {
                    assert forall|f: int| #[trigger]
                        bit64(bits, f) == (f != square as int && bit64(oldbits, f)) by {
                        crate::bits::lemma_clear_bit(
                            oldbits,
                            vstd::std_specs::bits::u64_trailing_zeros(oldbits) as int,
                            f,
                        );
                    }
                }
                let ghost before = pseudo@;
                match off {
                    0 => self.generate_pawn_moves(board, square, color, &mut pseudo),
                    1 => self.generate_knight_moves(board, square, color, &mut pseudo),
                    2 => self.generate_bishop_moves(board, square, color, &mut pseudo),
                    3 => self.generate_rook_moves(board, square, color, &mut pseudo),
                    4 => self.generate_queen_moves(board, square, color, &mut pseudo),
                    _ => self.generate_king_moves(board, square, color, &mut pseudo),
                }
                proof {
                    assert forall|mv: Move| #[trigger]
                        pseudo@.contains(mv) <==> (pseudo_move_ok(m, color, mv) && (idx_of(
                            color,
                            mv.piece.kind,
                        ) < i as int || (idx_of(color, mv.piece.kind) == i as int && !bit64(
                            bits,
                            mv.from.0 as int,
                        )))) by {
                        if pseudo@.contains(mv) {
                            let j = choose|j: int| 0 <= j < pseudo@.len() && pseudo@[j] == mv;
                            if j < before.len() {
                                assert(before[j] == mv);
                                assert(before.contains(mv));
                            } else {
                                assert(mv.from == Square(square));
                                assert(mv.piece == (Piece { color, kind }));
                                assert(bit64(bbi, square as int));
                                assert(pseudo_move_ok(m, color, mv));
                            }
                        }
                        if pseudo_move_ok(m, color, mv) {
                            if idx_of(color, mv.piece.kind) < i as int || (idx_of(
                                color,
                                mv.piece.kind,
                            ) == i as int && !bit64(oldbits, mv.from.0 as int)) {
                                assert(before.contains(mv));
                                let j = choose|j: int| 0 <= j < before.len() && before[j] == mv;
                                assert(pseudo@[j] == mv);
                                assert(pseudo@.contains(mv));
                            } else if idx_of(color, mv.piece.kind) == i as int && mv.from.0
                                == square {
                                assert(mv.piece.kind == kind) by {
                                    lemma_kind_idx_injective(color, mv.piece.kind, kind);
                                }
                                let j = choose|j: int|
                                    before.len() <= j < pseudo@.len() && pseudo@[j] == mv;
                                assert(pseudo@.contains(mv));
                            }
                        }
                    }
                    assert forall|j1: int, j2: int|
                        0 <= j1 < j2 < pseudo@.len() implies pseudo@[j1] != pseudo@[j2] by {
                        if j2 < before.len() {
                            assert(pseudo@[j1] == before[j1] && pseudo@[j2] == before[j2]);
                        } else if j1 < before.len() {
                            assert(pseudo@[j1] == before[j1]);
                            if pseudo@[j1] == pseudo@[j2] {
                                assert(before.contains(pseudo@[j2]));
                                assert(mv_segment_fresh(color, kind, i as int, oldbits, pseudo@[j2]));
                                assert(false);
                            }
                        }
                    }
                }
            }
            proof {
                broadcast use crate::bits::lemma_bit_zero;

                assert forall|mv: Move| #[trigger]
                    pseudo@.contains(mv) <==> (pseudo_move_ok(m, color, mv) && idx_of(
                        color,
                        mv.piece.kind,
                    ) < base + off + 1) by {}
            }
            off = off + 1;
        }
        pseudo
    }
}

/// A freshly generated move of this pass: its piece-set index is the one
/// being scanned and its origin still stands in the unprocessed bits.
pub open spec fn mv_segment_fresh(c: Color, k: PieceKind, i: int, bits: u64, mv: Move) -> bool {
    mv.piece.kind == k && idx_of(c, mv.piece.kind) == i && bit64(bits, mv.from.0 as int)
}

/// Distinct kinds have distinct piece-set indexes for one color.
proof fn lemma_kind_idx_injective(c: Color, k1: PieceKind, k2: PieceKind)
    requires
        idx_of(c, k1) == idx_of(c, k2),
    ensures
        k1 == k2,
{
}

} // verus!
