//! The library's global laws, stated and proved over the position model:
//! make and unmake invert each other, moves conserve the piece count but
//! for captures, the attack map mirrors the move generator, and the
//! legality filter guarantees king safety.

use vstd::prelude::*;
use crate::attacks::attacked;
use crate::attacks::bishop_reach;
use crate::attacks::in_check_spec;
use crate::attacks::king_step;
use crate::attacks::knight_jump;
use crate::attacks::pawn_attack;
use crate::attacks::pawns_reach;
use crate::attacks::rook_reach;
use crate::bits::bit64;
use crate::bits::clear_bit;
use crate::bits::lemma_bit_ext;
use crate::bits::lemma_clear_bit;
use crate::bits::lemma_popcnt_clear;
use crate::bits::lemma_popcnt_set;
use crate::bits::lemma_set_bit;
use crate::bits::popcnt;
use crate::bits::set_bit;
use crate::legal::legal_move_ok;
use crate::model::all_mask;
use crate::model::castle_rook_from;
use crate::model::castle_rook_to;
use crate::model::color_mask;
use crate::model::idx_of;
use crate::model::is_castle_shape;
use crate::model::model_wf;
use crate::model::spec_make;
use crate::model::spec_piece_at;
use crate::model::spec_unmake;
use crate::model::BoardModel;
use crate::movegen::pawn_move_ok;
use crate::movegen::promo_rank;
use crate::movegen::pseudo_move_ok;
use crate::movegen::target_move;
use crate::movegen::pawn_shape;
use crate::types::flip_color;
use crate::types::on_board;
use crate::types::sq_file;
use crate::types::sq_rank;
use crate::types::Color;
use crate::types::Move;
use crate::types::Piece;
use crate::types::PieceKind;
use crate::types::Square;

verus! {

/// A move that can be taken back exactly: the mover stands on its origin,
/// its destination bit is free, a declared capture really stands on its
/// capture square — the destination, or the passed pawn's square for an
/// en-passant capture — a promotion set is free to receive, and a
/// castling rook stands ready on its corner. Every move the generator
/// emits on a well-formed position satisfies this.
pub open spec fn reversible_move(m: BoardModel, mv: Move) -> bool {
    let pi = idx_of(mv.piece.color, mv.piece.kind);
    let from = mv.from.0 as int;
    let to = mv.to.0 as int;
    &&& model_wf(m)
    &&& on_board(from)
    &&& on_board(to)
    &&& from != to
    &&& bit64(m.bbs[pi], from)
    &&& !bit64(m.bbs[pi], to)
    &&& (match mv.promotion {
        Some(pk) => pk != mv.piece.kind && !bit64(m.bbs[idx_of(mv.piece.color, pk)], to),
        None => true,
    })
    &&& (match mv.captures {
        Some(cap) => cap.color != mv.piece.color && bit64(
            m.bbs[idx_of(cap.color, cap.kind)],
            crate::model::capture_square(m.ep, mv),
        ),
        None => true,
    })
    &&& (is_castle_shape(mv) ==> {
        let ri = idx_of(mv.piece.color, PieceKind::Rook);
        &&& (mv.from.0 == 4 || mv.from.0 == 60)
        &&& bit64(m.bbs[ri], castle_rook_from(mv))
        &&& !bit64(m.bbs[ri], castle_rook_to(mv))
        &&& mv.promotion is None
        &&& (match mv.captures {
            Some(cap) => cap.kind != PieceKind::Rook || cap.color != mv.piece.color,
            None => true,
        })
    })
}

/// Make then unmake is the identity on everything the snapshot protocol
/// promises to restore: the twelve piece sets, the castling rights, the
/// en-passant target, the halfmove clock — and, beyond the letter of the
/// promise, the side to move and the whole undo history.
pub proof fn lemma_make_unmake_inverse(m: BoardModel, mv: Move)
    requires
        reversible_move(m, mv),
    ensures
        spec_unmake(spec_make(m, mv), mv).bbs =~= m.bbs,
        spec_unmake(spec_make(m, mv), mv).rights == m.rights,
        spec_unmake(spec_make(m, mv), mv).ep == m.ep,
        spec_unmake(spec_make(m, mv), mv).halfmove == m.halfmove,
        spec_unmake(spec_make(m, mv), mv).side == m.side,
        spec_unmake(spec_make(m, mv), mv).hist =~= m.hist,
    {
    let made = spec_make(m, mv);
    let back = spec_unmake(made, mv);
    let pi = idx_of(mv.piece.color, mv.piece.kind);
    let from = mv.from.0 as int;
    let to = mv.to.0 as int;
    assert(made.hist.last() == m.hist.push(made.hist.last()).last());
    assert(back.hist =~= m.hist);
    assert forall|i: int| 0 <= i < 12 implies back.bbs[i] == m.bbs[i] by {
        let orig = m.bbs[i];
        let after = made.bbs[i];
        let restored = back.bbs[i];
        assert forall|j: int| bit64(restored, j) == bit64(orig, j) by {
            lemma_bits_roundtrip(m, mv, i, j);
        }
        lemma_bit_ext(restored, orig);
    }
}

/// One bit of one piece set survives the round trip.
proof fn lemma_bits_roundtrip(m: BoardModel, mv: Move, i: int, j: int)
    requires
        reversible_move(m, mv),
        0 <= i < 12,
    ensures
        bit64(spec_unmake(spec_make(m, mv), mv).bbs[i], j) == bit64(m.bbs[i], j),
{
    let pi = idx_of(mv.piece.color, mv.piece.kind);
    let from = mv.from.0 as int;
    let to = mv.to.0 as int;
    broadcast use lemma_set_bit, lemma_clear_bit;

    if is_castle_shape(mv) {
        let rf = castle_rook_from(mv);
        let rt = castle_rook_to(mv);
        assert(0 <= rf < 64 && 0 <= rt < 64 && rf != rt && rf != from && rt != from && rf != to
            && rt != to);
    }
}

/// The total number of set bits over the piece sets with index below `n`.
pub open spec fn total_count(bbs: Seq<u64>, n: int) -> int
    decreases n,
{
    if n <= 0 {
        0
    } else {
        total_count(bbs, n - 1) + popcnt(bbs[n - 1])
    }
}

/// Updating one piece set changes the total by that set's change.
proof fn lemma_total_update(bbs: Seq<u64>, i: int, v: u64, n: int)
    requires
        0 <= i < bbs.len(),
        0 <= n <= bbs.len(),
    ensures
        total_count(bbs.update(i, v), n) == total_count(bbs, n) + (if i < n {
            popcnt(v) - popcnt(bbs[i])
        } else {
            0int
        }),
    decreases n,
{
    if n > 0 {
        lemma_total_update(bbs, i, v, n - 1);
    }
}

/// Move count conservation: applying a move keeps the total piece count,
/// except that a capturing move lowers it by exactly one.
pub proof fn lemma_move_count_conservation(m: BoardModel, mv: Move)
    requires
        reversible_move(m, mv),
    ensures
        total_count(spec_make(m, mv).bbs, 12) == total_count(m.bbs, 12) - (match mv.captures {
            Some(cap) => 1int,
            None => 0int,
        }),
{
    let pi = idx_of(mv.piece.color, mv.piece.kind);
    let from = mv.from.0 as int;
    let to = mv.to.0 as int;
    broadcast use lemma_set_bit, lemma_clear_bit;

    let b1 = m.bbs.update(pi, clear_bit(m.bbs[pi], from));
    lemma_popcnt_clear(m.bbs[pi], from);
    lemma_total_update(m.bbs, pi, clear_bit(m.bbs[pi], from), 12);

    let capsq = crate::model::capture_square(m.ep, mv);
    let b2 = (match mv.captures {
        Some(cap) => {
            let ci = idx_of(cap.color, cap.kind);
            b1.update(ci, clear_bit(b1[ci], capsq))
        },
        None => b1,
    });
    match mv.captures {
        Some(cap) => {
            let ci = idx_of(cap.color, cap.kind);
            lemma_popcnt_clear(b1[ci], capsq);
            lemma_total_update(b1, ci, clear_bit(b1[ci], capsq), 12);
        },
        None => {},
    }

    let b3 = (match mv.promotion {
        Some(pk) => {
            let qi = idx_of(mv.piece.color, pk);
            b2.update(qi, set_bit(b2[qi], to))
        },
        None => b2.update(pi, set_bit(b2[pi], to)),
    });
    match mv.promotion {
        Some(pk) => {
            let qi = idx_of(mv.piece.color, pk);
            lemma_popcnt_set(b2[qi], to);
            lemma_total_update(b2, qi, set_bit(b2[qi], to), 12);
        },
        None => {
            lemma_popcnt_set(b2[pi], to);
            lemma_total_update(b2, pi, set_bit(b2[pi], to), 12);
        },
    }

    if is_castle_shape(mv) {
        let ri = idx_of(mv.piece.color, PieceKind::Rook);
        let rf = castle_rook_from(mv);
        let rt = castle_rook_to(mv);
        assert(0 <= rf < 64 && 0 <= rt < 64 && rf != rt && rf != from && rt != from && rf != to
            && rt != to);
        lemma_popcnt_clear(b3[ri], rf);
        lemma_popcnt_set(clear_bit(b3[ri], rf), rt);
        lemma_total_update(b3, ri, set_bit(clear_bit(b3[ri], rf), rt), 12);
    }
}

/// A slider's target is some steps away from its origin.
proof fn lemma_ray_target_apart(occ: u64, f: int, dr: int, df: int, t: int)
    requires
        crate::attacks::ray_reaches(occ, f, dr, df, t),
        on_board(f),
        -1 <= dr <= 1,
        -1 <= df <= 1,
        !(dr == 0 && df == 0),
    ensures
        t != f,
{
    let k = choose|k: int|
        1 <= k <= 7 && crate::attacks::dir_on_board(f, dr, df, k)
            && #[trigger] crate::attacks::dir_target(f, dr, df, k) == t && crate::attacks::clear_path(
            occ,
            f,
            dr,
            df,
            k,
        );
    assert(t == 8 * (sq_rank(f) + k * dr) + (sq_file(f) + k * df));
    assert(f == 8 * sq_rank(f) + sq_file(f)) by (nonlinear_arith)
        requires
            0 <= f < 64,
            sq_rank(f) == f / 8,
            sq_file(f) == f % 8,
    ;
    assert(k * dr != 0 || k * df != 0) by (nonlinear_arith)
        requires
            1 <= k <= 7,
            -1 <= dr <= 1,
            -1 <= df <= 1,
            !(dr == 0 && df == 0),
    ;
    assert(-7 <= k * df <= 7) by (nonlinear_arith)
        requires
            1 <= k <= 7,
            -1 <= df <= 1,
    ;
    if t == f {
        assert(8 * (k * dr) + (k * df) == 0);
        assert(k * df == 0 && k * dr == 0) by (nonlinear_arith)
            requires
                8 * (k * dr) + (k * df) == 0,
                -7 <= k * df <= 7,
        ;
    }
}

/// The recorded en-passant target, when there is one, is an empty
/// square: true of every position a double push just produced.
pub open spec fn ep_coherent(m: BoardModel) -> bool {
    match m.ep {
        Some(sq) => !bit64(all_mask(m), sq.0 as int),
        None => true,
    }
}

/// Every pseudo-legal move of a position with pairwise disjoint piece
/// sets and a coherent en-passant target is exactly reversible, so the
/// make/unmake and count-conservation laws cover every move the
/// generator emits.
pub proof fn lemma_pseudo_moves_reversible(m: BoardModel, mv: Move)
    requires
        model_wf(m),
        crate::model::disjoint_sets(m),
        ep_coherent(m),
        pseudo_move_ok(m, m.side, mv),
    ensures
        reversible_move(m, mv),
{
    let c = m.side;
    let pi = idx_of(mv.piece.color, mv.piece.kind);
    let from = mv.from.0 as int;
    let to = mv.to.0 as int;
    let lo: int = if c == Color::White {
        0
    } else {
        6
    };
    crate::model::lemma_union_range_bits(m.bbs, lo, lo + 6, to);
    assert(lo <= pi < lo + 6);
    match mv.piece.kind {
        PieceKind::Pawn => {
            if to == from + crate::movegen::pawn_dir(c) || to == from + 2
                * crate::movegen::pawn_dir(c) && !bit64(all_mask(m), to) {
            }
            if pawn_attack(c, from, to) && bit64(color_mask(m, flip_color(c)), to) {
                let e = flip_color(c);
                let elo: int = if e == Color::White {
                    0
                } else {
                    6
                };
                crate::model::lemma_union_range_bits(m.bbs, elo, elo + 6, to);
                let i = choose|i: int| elo <= i < elo + 6 && bit64(#[trigger] m.bbs[i], to);
                lemma_scan_some(m, to, i, 0);
                let p = spec_piece_at(m, to).unwrap();
                lemma_piece_at_bits(m, to, p);
                crate::model::lemma_union_range_bits(m.bbs, 0, 12, to);
                assert(bit64(all_mask(m), to)) by {
                    assert(bit64(m.bbs[idx_of(p.color, p.kind)], to));
                }
                assert(!crate::model::is_ep_capture(m.ep, mv));
            } else if crate::movegen::ep_capture_possible(m, c, to) && mv.captures == Some(
                Piece { color: flip_color(c), kind: PieceKind::Pawn },
            ) {
                assert(crate::model::is_ep_capture(m.ep, mv));
                assert(crate::model::capture_square(m.ep, mv) == crate::movegen::ep_victim(
                    c,
                    to,
                ));
                crate::model::lemma_union_range_bits(m.bbs, 0, 12, to);
                lemma_scan_empty(m, to, 0);
            } else {
                crate::model::lemma_union_range_bits(m.bbs, 0, 12, to);
                lemma_scan_empty(m, to, 0);
            }
            match mv.promotion {
                Some(pk) => {
                    assert(idx_of(c, pk) == pi || !bit64(m.bbs[idx_of(c, pk)], to));
                },
                None => {},
            }
        },
        PieceKind::King => {
            if crate::movegen::castle_move_ok(m, c, from, mv) && !nonpawn_king_step_ok(
                m,
                c,
                from,
                mv,
            ) {
                lemma_scan_empty_from_clear(m, to);
                assert(is_castle_shape(mv));
                if mv.to.0 == mv.from.0 + 2 {
                    assert(castle_rook_to(mv) == from + 1);
                    lemma_scan_empty_from_clear(m, from + 1);
                } else {
                    assert(castle_rook_to(mv) == from - 1);
                    lemma_scan_empty_from_clear(m, from - 1);
                }
            } else {
                assert(crate::movegen::nonpawn_move_ok(m, c, PieceKind::King, from, mv));
                crate::movegen::lemma_king_step_never_two(from, to);
                assert(!bit64(color_mask(m, c), to));
                match mv.captures {
                    Some(cap) => {
                        assert(mv.captures == spec_piece_at(m, to));
                        lemma_piece_at_bits(m, to, cap);
                        assert(!crate::model::is_ep_capture(m.ep, mv));
                    },
                    None => {},
                }
            }
        },
        _ => {
            assert(!bit64(color_mask(m, c), to));
            match mv.captures {
                Some(cap) => {
                    assert(mv.captures == spec_piece_at(m, to));
                    lemma_piece_at_bits(m, to, cap);
                    assert(!crate::model::is_ep_capture(m.ep, mv));
                },
                None => {},
            }
            match mv.piece.kind {
                PieceKind::Rook | PieceKind::Bishop | PieceKind::Queen => {
                    if crate::attacks::rook_reach(all_mask(m), from, to) {
                        if crate::attacks::ray_reaches(all_mask(m), from, 1, 0, to) {
                            lemma_ray_target_apart(all_mask(m), from, 1, 0, to);
                        } else if crate::attacks::ray_reaches(all_mask(m), from, -1, 0, to) {
                            lemma_ray_target_apart(all_mask(m), from, -1, 0, to);
                        } else if crate::attacks::ray_reaches(all_mask(m), from, 0, 1, to) {
                            lemma_ray_target_apart(all_mask(m), from, 0, 1, to);
                        } else {
                            lemma_ray_target_apart(all_mask(m), from, 0, -1, to);
                        }
                    } else {
                        if crate::attacks::ray_reaches(all_mask(m), from, 1, 1, to) {
                            lemma_ray_target_apart(all_mask(m), from, 1, 1, to);
                        } else if crate::attacks::ray_reaches(all_mask(m), from, 1, -1, to) {
                            lemma_ray_target_apart(all_mask(m), from, 1, -1, to);
                        } else if crate::attacks::ray_reaches(all_mask(m), from, -1, 1, to) {
                            lemma_ray_target_apart(all_mask(m), from, -1, 1, to);
                        } else {
                            lemma_ray_target_apart(all_mask(m), from, -1, -1, to);
                        }
                    }
                },
                _ => {},
            }
        },
    }
}

/// The king's single-step half of its move rule, named for case splits.
pub open spec fn nonpawn_king_step_ok(m: BoardModel, c: Color, from: int, mv: Move) -> bool {
    crate::movegen::nonpawn_move_ok(m, c, PieceKind::King, from, mv)
}

/// A square clear in the occupancy mask scans to nothing.
proof fn lemma_scan_empty_from_clear(m: BoardModel, s: int)
    requires
        model_wf(m),
        !bit64(all_mask(m), s),
    ensures
        spec_piece_at(m, s) is None,
        forall|i: int| 0 <= i < 12 ==> !bit64(#[trigger] m.bbs[i], s),
{
    crate::model::lemma_union_range_bits(m.bbs, 0, 12, s);
    lemma_scan_empty(m, s, 0);
}

/// A nonempty scan yields a piece whose set holds the square, all other
/// sets staying clear under disjointness.
proof fn lemma_piece_at_bits(m: BoardModel, s: int, p: Piece)
    requires
        model_wf(m),
        crate::model::disjoint_sets(m),
        spec_piece_at(m, s) == Some(p),
    ensures
        bit64(m.bbs[idx_of(p.color, p.kind)], s),
        forall|i: int|
            0 <= i < 12 && i != idx_of(p.color, p.kind) ==> !bit64(#[trigger] m.bbs[i], s),
{
    lemma_scan_some_found(m, s, 0, p);
}

/// What a successful scan says about the set it stopped at.
proof fn lemma_scan_some_found(m: BoardModel, s: int, k: int, p: Piece)
    requires
        model_wf(m),
        crate::model::disjoint_sets(m),
        0 <= k <= 12,
        crate::model::scan_piece(m, s, k) == Some(p),
    ensures
        bit64(m.bbs[idx_of(p.color, p.kind)], s),
        forall|i: int|
            0 <= i < 12 && i != idx_of(p.color, p.kind) ==> !bit64(#[trigger] m.bbs[i], s),
    decreases 12 - k,
{
    if bit64(m.bbs[k], s) {
        crate::position::lemma_idx_piece_roundtrip(k);
        assert forall|i: int|
            0 <= i < 12 && i != idx_of(p.color, p.kind) implies !bit64(#[trigger] m.bbs[i], s) by {
            assert(!(bit64(m.bbs[k], s) && bit64(m.bbs[i], s)));
        }
    } else {
        lemma_scan_some_found(m, s, k + 1, p);
    }
}

/// A scan over a square some set holds cannot come back empty.
proof fn lemma_scan_some(m: BoardModel, s: int, i: int, k: int)
    requires
        model_wf(m),
        0 <= k <= i < 12,
        bit64(m.bbs[i], s),
    ensures
        crate::model::scan_piece(m, s, k) is Some,
    decreases 12 - k,
{
    if !bit64(m.bbs[k], s) {
        lemma_scan_some(m, s, i, k + 1);
    }
}

/// A square no set holds scans to nothing.
proof fn lemma_scan_empty(m: BoardModel, s: int, k: int)
    requires
        model_wf(m),
        0 <= k <= 12,
        forall|i: int| k <= i < 12 ==> !bit64(#[trigger] m.bbs[i], s),
    ensures
        crate::model::scan_piece(m, s, k) is None,
    decreases 12 - k,
{
    if k < 12 {
        lemma_scan_empty(m, s, k + 1);
    }
}

/// Square `t` is attacked by a non-pawn piece of color `c`.
pub open spec fn nonpawn_attacked(m: BoardModel, c: Color, t: int) -> bool {
    exists|f: int|
        #![trigger bit64(m.bbs[idx_of(c, PieceKind::Knight)], f)]
        #![trigger bit64(m.bbs[idx_of(c, PieceKind::King)], f)]
        #![trigger bit64(m.bbs[idx_of(c, PieceKind::Bishop)], f)]
        #![trigger bit64(m.bbs[idx_of(c, PieceKind::Rook)], f)]
        #![trigger bit64(m.bbs[idx_of(c, PieceKind::Queen)], f)]
        on_board(f) && {
            ||| (bit64(m.bbs[idx_of(c, PieceKind::Knight)], f) && knight_jump(f, t))
            ||| (bit64(m.bbs[idx_of(c, PieceKind::King)], f) && king_step(f, t))
            ||| (bit64(m.bbs[idx_of(c, PieceKind::Bishop)], f) && bishop_reach(all_mask(m), f, t))
            ||| (bit64(m.bbs[idx_of(c, PieceKind::Rook)], f) && rook_reach(all_mask(m), f, t))
            ||| (bit64(m.bbs[idx_of(c, PieceKind::Queen)], f) && (rook_reach(all_mask(m), f, t)
                || bishop_reach(all_mask(m), f, t)))
        }
}

/// The attack map splits into its pawn part and its non-pawn part.
pub proof fn lemma_attacked_split(m: BoardModel, c: Color, t: int)
    ensures
        attacked(m, c, t) <==> (nonpawn_attacked(m, c, t) || pawns_reach(
            c,
            m.bbs[idx_of(c, PieceKind::Pawn)],
            t,
        )),
{
}

/// Attack-map symmetry, non-pawn side: a square not held by one's own
/// pieces is attacked by a non-pawn piece exactly when some non-pawn,
/// non-castling pseudo-legal move ends on it. Pawn pushes and castling
/// are the exceptions in the other direction: both are moves that attack
/// nothing on their way.
pub proof fn lemma_attack_symmetry_nonpawn(m: BoardModel, c: Color, t: int)
    requires
        model_wf(m),
        on_board(t),
        !bit64(color_mask(m, c), t),
    ensures
        nonpawn_attacked(m, c, t) <==> (exists|mv: Move|
            pseudo_move_ok(m, c, mv) && mv.piece.kind != PieceKind::Pawn && !is_castle_shape(mv)
                && mv.to == Square(t as u8)),
{
    if nonpawn_attacked(m, c, t) {
        let f = choose|f: int|
            on_board(f) && {
                ||| (bit64(m.bbs[idx_of(c, PieceKind::Knight)], f) && knight_jump(f, t))
                ||| (bit64(m.bbs[idx_of(c, PieceKind::King)], f) && king_step(f, t))
                ||| (bit64(m.bbs[idx_of(c, PieceKind::Bishop)], f) && bishop_reach(
                    all_mask(m),
                    f,
                    t,
                ))
                ||| (bit64(m.bbs[idx_of(c, PieceKind::Rook)], f) && rook_reach(all_mask(m), f, t))
                ||| (bit64(m.bbs[idx_of(c, PieceKind::Queen)], f) && (rook_reach(
                    all_mask(m),
                    f,
                    t,
                ) || bishop_reach(all_mask(m), f, t)))
            };
        if bit64(m.bbs[idx_of(c, PieceKind::Knight)], f) && knight_jump(f, t) {
            let mv = target_move(m, Piece { color: c, kind: PieceKind::Knight }, f, t);
            assert(pseudo_move_ok(m, c, mv) && mv.piece.kind != PieceKind::Pawn
                && !is_castle_shape(mv) && mv.to == Square(t as u8));
        } else if bit64(m.bbs[idx_of(c, PieceKind::King)], f) && king_step(f, t) {
            let mv = target_move(m, Piece { color: c, kind: PieceKind::King }, f, t);
            crate::movegen::lemma_king_step_never_two(f, t);
            assert(pseudo_move_ok(m, c, mv) && mv.piece.kind != PieceKind::Pawn
                && !is_castle_shape(mv) && mv.to == Square(t as u8));
        } else if bit64(m.bbs[idx_of(c, PieceKind::Bishop)], f) && bishop_reach(all_mask(m), f, t) {
            let mv = target_move(m, Piece { color: c, kind: PieceKind::Bishop }, f, t);
            assert(pseudo_move_ok(m, c, mv) && mv.piece.kind != PieceKind::Pawn
                && !is_castle_shape(mv) && mv.to == Square(t as u8));
        } else if bit64(m.bbs[idx_of(c, PieceKind::Rook)], f) && rook_reach(all_mask(m), f, t) {
            let mv = target_move(m, Piece { color: c, kind: PieceKind::Rook }, f, t);
            assert(pseudo_move_ok(m, c, mv) && mv.piece.kind != PieceKind::Pawn
                && !is_castle_shape(mv) && mv.to == Square(t as u8));
        } else {
            let mv = target_move(m, Piece { color: c, kind: PieceKind::Queen }, f, t);
            assert(pseudo_move_ok(m, c, mv) && mv.piece.kind != PieceKind::Pawn
                && !is_castle_shape(mv) && mv.to == Square(t as u8));
        }
    }
    if exists|mv: Move|
        pseudo_move_ok(m, c, mv) && mv.piece.kind != PieceKind::Pawn && !is_castle_shape(mv)
            && mv.to == Square(t as u8) {
        let mv = choose|mv: Move|
            pseudo_move_ok(m, c, mv) && mv.piece.kind != PieceKind::Pawn && !is_castle_shape(mv)
                && mv.to == Square(t as u8);
        let f = mv.from.0 as int;
        assert(bit64(m.bbs[idx_of(c, mv.piece.kind)], f));
        if mv.piece.kind == PieceKind::King {
            assert(crate::movegen::nonpawn_move_ok(m, c, PieceKind::King, f, mv)) by {
                if crate::movegen::castle_move_ok(m, c, f, mv) {
                    assert(is_castle_shape(mv));
                }
            }
        }
        assert(nonpawn_attacked(m, c, t));
    }
}

/// Attack-map symmetry, pawn side: an enemy-occupied square is in a
/// pawn's diagonal reach exactly when some pawn capture move ends on it.
pub proof fn lemma_attack_symmetry_pawn(m: BoardModel, c: Color, t: int)
    requires
        model_wf(m),
        on_board(t),
        bit64(color_mask(m, flip_color(c)), t),
    ensures
        pawns_reach(c, m.bbs[idx_of(c, PieceKind::Pawn)], t) <==> (exists|mv: Move|
            pseudo_move_ok(m, c, mv) && mv.piece.kind == PieceKind::Pawn && mv.captures is Some
                && mv.to == Square(t as u8)),
{
    let pawns = m.bbs[idx_of(c, PieceKind::Pawn)];
    if pawns_reach(c, pawns, t) {
        let f = choose|f: int| #[trigger] bit64(pawns, f) && pawn_attack(c, f, t);
        let promo: Option<PieceKind> = if sq_rank(t) == promo_rank(c) {
            Some(PieceKind::Queen)
        } else {
            None
        };
        let mv = pawn_shape(c, f, t, spec_piece_at(m, t), promo);
        assert(mv.captures == spec_piece_at(m, t));
        lemma_enemy_square_occupied(m, c, t);
        assert(pawn_move_ok(m, c, f, mv));
        assert(pseudo_move_ok(m, c, mv) && mv.piece.kind == PieceKind::Pawn && mv.captures is Some
            && mv.to == Square(t as u8));
    }
    if exists|mv: Move|
        pseudo_move_ok(m, c, mv) && mv.piece.kind == PieceKind::Pawn && mv.captures is Some
            && mv.to == Square(t as u8) {
        let mv = choose|mv: Move|
            pseudo_move_ok(m, c, mv) && mv.piece.kind == PieceKind::Pawn && mv.captures is Some
                && mv.to == Square(t as u8);
        let f = mv.from.0 as int;
        assert(pawn_attack(c, f, t));
        assert(bit64(pawns, f) && pawn_attack(c, f, t));
    }
}

/// A square held by some color's piece holds a piece.
proof fn lemma_enemy_square_occupied(m: BoardModel, c: Color, t: int)
    requires
        model_wf(m),
        bit64(color_mask(m, flip_color(c)), t),
    ensures
        spec_piece_at(m, t) is Some,
{
    let e = flip_color(c);
    let lo: int = if e == Color::White {
        0
    } else {
        6
    };
    crate::model::lemma_union_range_bits(m.bbs, lo, lo + 6, t);
    let i = choose|i: int| lo <= i < lo + 6 && bit64(#[trigger] m.bbs[i], t);
    lemma_scan_finds(m, t, i, 0);
}

/// The piece scan cannot miss an occupied set.
proof fn lemma_scan_finds(m: BoardModel, s: int, i: int, k: int)
    requires
        0 <= k <= i < 12,
        bit64(m.bbs[i], s),
    ensures
        crate::model::scan_piece(m, s, k) is Some,
    decreases 12 - k,
{
    if !bit64(m.bbs[k], s) {
        lemma_scan_finds(m, s, i, k + 1);
    }
}

/// Legality means king safety: no move the legality filter keeps leaves
/// the mover's own king attacked immediately after it is applied.
pub proof fn lemma_legality_king_safety(m: BoardModel, mv: Move)
    requires
        legal_move_ok(m, mv),
    ensures
        !in_check_spec(spec_make(m, mv), m.side),
{
}

} // verus!
