//! Attack geometry and the attack-map generator: which squares a color's
//! pieces bear on, stated square by square and proved against the shift
//! tricks, offset tables and ray walks that compute them.

use vstd::prelude::*;
use crate::bits::bit64;
use crate::bits::lemma_bit_or;
use crate::bits::lemma_bit_zero;
use crate::bits::lemma_set_bit;
use crate::bits::lemma_mask_test;
use crate::model::all_mask;
use crate::model::board_ok;
use crate::model::idx_of;
use crate::model::BoardModel;
use crate::position::BitboardBoard;
use crate::types::flip_color;
use crate::types::on_board;
use crate::types::sq_file;
use crate::types::sq_rank;
use crate::types::Color;
use crate::types::PieceKind;
use crate::types::Square;

verus! {

/// The absolute value of an offset.
pub open spec fn abs_of(x: int) -> int {
    if x >= 0 {
        x
    } else {
        -x
    }
}

/// A knight's jump: file and rank change by 1 and 2 in either order.
pub open spec fn knight_jump(f: int, t: int) -> bool {
    &&& on_board(f)
    &&& on_board(t)
    &&& {
        let df = abs_of(sq_file(f) - sq_file(t));
        let dr = abs_of(sq_rank(f) - sq_rank(t));
        (df == 1 && dr == 2) || (df == 2 && dr == 1)
    }
}

/// A king's step: to an adjacent square.
pub open spec fn king_step(f: int, t: int) -> bool {
    &&& on_board(f)
    &&& on_board(t)
    &&& f != t
    &&& abs_of(sq_file(f) - sq_file(t)) <= 1
    &&& abs_of(sq_rank(f) - sq_rank(t)) <= 1
}

/// A pawn's capture reach: one rank forward, one file aside.
pub open spec fn pawn_attack(c: Color, f: int, t: int) -> bool {
    &&& on_board(f)
    &&& on_board(t)
    &&& abs_of(sq_file(f) - sq_file(t)) == 1
    &&& (match c {
        Color::White => sq_rank(t) == sq_rank(f) + 1,
        Color::Black => sq_rank(t) == sq_rank(f) - 1,
    })
}

/// The square `k` steps from `f` along direction `(dr, df)`.
pub open spec fn dir_target(f: int, dr: int, df: int, k: int) -> int {
    8 * (sq_rank(f) + k * dr) + (sq_file(f) + k * df)
}

/// Whether that square exists on the board.
pub open spec fn dir_on_board(f: int, dr: int, df: int, k: int) -> bool {
    &&& 0 <= sq_rank(f) + k * dr < 8
    &&& 0 <= sq_file(f) + k * df < 8
}

/// No occupied square strictly between `f` and the square `k` steps out.
pub open spec fn clear_path(occ: u64, f: int, dr: int, df: int, k: int) -> bool {
    forall|j: int|
        1 <= j < k && dir_on_board(f, dr, df, j) ==> !bit64(
            occ,
            #[trigger] dir_target(f, dr, df, j),
        )
}

/// A sliding piece on `f` reaches `t` along `(dr, df)`: `t` is some steps
/// out on the board and every square strictly before it is empty. The
/// reached square itself may be occupied; a friendly occupant is excluded
/// by the callers that need it.
pub open spec fn ray_reaches(occ: u64, f: int, dr: int, df: int, t: int) -> bool {
    exists|k: int|
        1 <= k <= 7 && dir_on_board(f, dr, df, k) && #[trigger] dir_target(f, dr, df, k) == t
            && clear_path(occ, f, dr, df, k)
}

/// A rook on `f` bears on `t`: along a rank or a file, first blocker included.
pub open spec fn rook_reach(occ: u64, f: int, t: int) -> bool {
    ||| ray_reaches(occ, f, 1, 0, t)
    ||| ray_reaches(occ, f, -1, 0, t)
    ||| ray_reaches(occ, f, 0, 1, t)
    ||| ray_reaches(occ, f, 0, -1, t)
}

/// A bishop on `f` bears on `t`: along a diagonal, first blocker included.
pub open spec fn bishop_reach(occ: u64, f: int, t: int) -> bool {
    ||| ray_reaches(occ, f, 1, 1, t)
    ||| ray_reaches(occ, f, 1, -1, t)
    ||| ray_reaches(occ, f, -1, 1, t)
    ||| ray_reaches(occ, f, -1, -1, t)
}

/// Square `t` is attacked by some piece of color `c`: a pawn's diagonal
/// reach, a knight's jump, a king's step, or an unblocked rook, bishop or
/// queen ray. Occupants of `t` itself, friendly or not, do not block.
pub open spec fn attacked(m: BoardModel, c: Color, t: int) -> bool {
    exists|f: int|
        #![trigger bit64(m.bbs[idx_of(c, PieceKind::Pawn)], f)]
        #![trigger bit64(m.bbs[idx_of(c, PieceKind::Knight)], f)]
        #![trigger bit64(m.bbs[idx_of(c, PieceKind::King)], f)]
        #![trigger bit64(m.bbs[idx_of(c, PieceKind::Bishop)], f)]
        #![trigger bit64(m.bbs[idx_of(c, PieceKind::Rook)], f)]
        #![trigger bit64(m.bbs[idx_of(c, PieceKind::Queen)], f)]
        on_board(f) && {
            ||| (bit64(m.bbs[idx_of(c, PieceKind::Pawn)], f) && pawn_attack(c, f, t))
            ||| (bit64(m.bbs[idx_of(c, PieceKind::Knight)], f) && knight_jump(f, t))
            ||| (bit64(m.bbs[idx_of(c, PieceKind::King)], f) && king_step(f, t))
            ||| (bit64(m.bbs[idx_of(c, PieceKind::Bishop)], f) && bishop_reach(all_mask(m), f, t))
            ||| (bit64(m.bbs[idx_of(c, PieceKind::Rook)], f) && rook_reach(all_mask(m), f, t))
            ||| (bit64(m.bbs[idx_of(c, PieceKind::Queen)], f) && (rook_reach(all_mask(m), f, t)
                || bishop_reach(all_mask(m), f, t)))
        }
}

/// A color is in check when its king's square is attacked by the other
/// color, or when it has no king at all, which counts as an illegal state
/// rather than an error.
pub open spec fn in_check_spec(m: BoardModel, c: Color) -> bool {
    let kings = m.bbs[idx_of(c, PieceKind::King)];
    ||| kings == 0
    ||| attacked(m, flip_color(c), vstd::std_specs::bits::u64_trailing_zeros(kings) as int)
}

/// Coordinate arithmetic: moving by `dr` ranks and `df` files from `f`
/// lands on the square whose rank and file moved accordingly, as long as
/// the file does not wrap.
pub proof fn lemma_coords(f: int, dr: int, df: int)
    requires
        on_board(f),
        0 <= sq_rank(f) + dr < 8,
        0 <= sq_file(f) + df < 8,
    ensures
        on_board(f + 8 * dr + df),
        sq_rank(f + 8 * dr + df) == sq_rank(f) + dr,
        sq_file(f + 8 * dr + df) == sq_file(f) + df,
{
    let r = sq_rank(f);
    let fl = sq_file(f);
    assert(f == 8 * r + fl) by (nonlinear_arith)
        requires
            r == f / 8,
            fl == f % 8,
            0 <= f < 64,
    ;
    let t = f + 8 * dr + df;
    assert(t == 8 * (r + dr) + (fl + df));
    assert(t / 8 == r + dr && t % 8 == fl + df) by (nonlinear_arith)
        requires
            t == 8 * (r + dr) + (fl + df),
            0 <= r + dr < 8,
            0 <= fl + df < 8,
    ;
}

/// The decomposition of a square difference into rank and file steps is
/// unique while the file step stays within a rank.
pub proof fn lemma_coords_rev(f: int, t: int)
    requires
        on_board(f),
        on_board(t),
    ensures
        t - f == 8 * (sq_rank(t) - sq_rank(f)) + (sq_file(t) - sq_file(f)),
        -7 <= sq_file(t) - sq_file(f) <= 7,
{
    assert(f == 8 * sq_rank(f) + sq_file(f) && 0 <= sq_file(f) < 8 && t == 8 * sq_rank(t)
        + sq_file(t) && 0 <= sq_file(t) < 8) by (nonlinear_arith)
        requires
            0 <= f < 64,
            0 <= t < 64,
    ;
}

/// The mask of squares a knight on `sq` jumps to.
pub(crate) fn knight_mask_of(sq: u8) -> (r: u64)
    requires
        sq < 64,
    ensures
        forall|t: int| bit64(r, t) <==> knight_jump(sq as int, t),
{
    let mut acc: u64 = 0;
    let f0 = sq as i16;
    let offsets: [i16; 8] = [15, 17, 10, 6, -15, -17, -10, -6];
    let mut oi: usize = 0;
    proof {
        broadcast use lemma_bit_zero;

    }
    while oi < 8
        invariant
            sq < 64,
            f0 == sq as int,
            0 <= oi <= 8,
            offsets@ =~= seq![15i16, 17i16, 10i16, 6i16, -15i16, -17i16, -10i16, -6i16],
            forall|t: int|
                bit64(acc, t) <==> (knight_jump(sq as int, t) && (exists|u: int|
                    0 <= u < oi && t - sq as int == #[trigger] offsets@[u] as int)),
        decreases 8 - oi,
    {
        let off = offsets[oi];
        let target = f0 + off;
        if target >= 0 && target < 64 {
            let from_file = sq % 8;
            let to_file = (target % 8) as u8;
            let fd = if from_file >= to_file {
                from_file - to_file
            } else {
                to_file - from_file
            };
            if fd <= 2 {
                proof {
                    lemma_knight_offset(sq as int, target as int, off as int);
                }
                let ghost accp = acc;
                acc = acc | (1u64 << (target as u64));
                proof {
                    assert forall|t: int|
                        bit64(acc, t) <==> (bit64(accp, t) || t == target as int) by {
                        lemma_set_bit(accp, target as int, t);
                    }
                }
            } else {
                proof {
                    lemma_knight_offset(sq as int, target as int, off as int);
                }
            }
        }
        proof {
            assert forall|t: int|
                (knight_jump(sq as int, t) && (exists|u: int|
                    0 <= u < oi + 1 && t - sq as int == #[trigger] offsets@[u] as int)) implies (
            bit64(acc, t)) by {
                let u = choose|u: int|
                    0 <= u < oi + 1 && t - sq as int == #[trigger] offsets@[u] as int;
                if u == oi {
                    assert(t == sq as int + off as int);
                    lemma_knight_jump_files(sq as int, t);
                }
            }
        }
        oi = oi + 1;
    }
    proof {
        assert forall|t: int| knight_jump(sq as int, t) implies (exists|u: int|
            0 <= u < 8 && t - sq as int == #[trigger] offsets@[u] as int) by {
            lemma_knight_decompose(sq as int, t);
            let d = t - sq as int;
            if d == 15 {
                assert(offsets@[0] as int == 15);
            } else if d == 17 {
                assert(offsets@[1] as int == 17);
            } else if d == 10 {
                assert(offsets@[2] as int == 10);
            } else if d == 6 {
                assert(offsets@[3] as int == 6);
            } else if d == -15 {
                assert(offsets@[4] as int == -15);
            } else if d == -17 {
                assert(offsets@[5] as int == -17);
            } else if d == -10 {
                assert(offsets@[6] as int == -10);
            } else {
                assert(offsets@[7] as int == -6);
            }
        }
    }
    acc
}

/// The mask of squares a king on `sq` steps to.
pub(crate) fn king_mask_of(sq: u8) -> (r: u64)
    requires
        sq < 64,
    ensures
        forall|t: int| bit64(r, t) <==> king_step(sq as int, t),
{
    let mut acc: u64 = 0;
    let f0 = sq as i16;
    let offsets: [i16; 8] = [8, -8, 1, -1, 9, 7, -9, -7];
    let mut oi: usize = 0;
    proof {
        broadcast use lemma_bit_zero;

    }
    while oi < 8
        invariant
            sq < 64,
            f0 == sq as int,
            0 <= oi <= 8,
            offsets@ =~= seq![8i16, -8i16, 1i16, -1i16, 9i16, 7i16, -9i16, -7i16],
            forall|t: int|
                bit64(acc, t) <==> (king_step(sq as int, t) && (exists|u: int|
                    0 <= u < oi && t - sq as int == #[trigger] offsets@[u] as int)),
        decreases 8 - oi,
    {
        let off = offsets[oi];
        let target = f0 + off;
        if target >= 0 && target < 64 {
            let from_file = sq % 8;
            let to_file = (target % 8) as u8;
            let fd = if from_file >= to_file {
                from_file - to_file
            } else {
                to_file - from_file
            };
            if fd <= 1 {
                proof {
                    lemma_king_offset(sq as int, target as int, off as int);
                }
                let ghost accp = acc;
                acc = acc | (1u64 << (target as u64));
                proof {
                    assert forall|t: int|
                        bit64(acc, t) <==> (bit64(accp, t) || t == target as int) by {
                        crate::bits::lemma_set_bit(accp, target as int, t);
                    }
                }
            } else {
                proof {
                    lemma_king_offset(sq as int, target as int, off as int);
                }
            }
        }
        proof {
            assert forall|t: int|
                (king_step(sq as int, t) && (exists|u: int|
                    0 <= u < oi + 1 && t - sq as int == #[trigger] offsets@[u] as int)) implies (
            bit64(acc, t)) by {
                let u = choose|u: int|
                    0 <= u < oi + 1 && t - sq as int == #[trigger] offsets@[u] as int;
                if u == oi {
                    assert(t == sq as int + off as int);
                }
            }
        }
        oi = oi + 1;
    }
    proof {
        assert forall|t: int| king_step(sq as int, t) implies (exists|u: int|
            0 <= u < 8 && t - sq as int == #[trigger] offsets@[u] as int) by {
            lemma_king_decompose(sq as int, t);
            let d = t - sq as int;
            if d == 8 {
                assert(offsets@[0] as int == 8);
            } else if d == -8 {
                assert(offsets@[1] as int == -8);
            } else if d == 1 {
                assert(offsets@[2] as int == 1);
            } else if d == -1 {
                assert(offsets@[3] as int == -1);
            } else if d == 9 {
                assert(offsets@[4] as int == 9);
            } else if d == 7 {
                assert(offsets@[5] as int == 7);
            } else if d == -9 {
                assert(offsets@[6] as int == -9);
            } else {
                assert(offsets@[7] as int == -7);
            }
        }
    }
    acc
}

/// An offset from the king table lands on a step square exactly when the
/// file distance stays at most one.
proof fn lemma_king_offset(f: int, t: int, off: int)
    requires
        on_board(f),
        on_board(t),
        t == f + off,
        off == 8 || off == -8 || off == 1 || off == -1 || off == 9 || off == 7 || off == -9 || off
            == -7,
    ensures
        king_step(f, t) <==> abs_of(sq_file(f) - sq_file(t)) <= 1,
{
    lemma_coords_rev(f, t);
}

/// Every king step is one of the eight table offsets.
proof fn lemma_king_decompose(f: int, t: int)
    requires
        king_step(f, t),
    ensures
        t - f == 8 || t - f == -8 || t - f == 1 || t - f == -1 || t - f == 9 || t - f == 7 || t - f
            == -9 || t - f == -7,
{
    lemma_coords_rev(f, t);
}

/// Squares reached strictly before `kmax` steps out: the loop-progress
/// form of [`ray_reaches`].
pub open spec fn reach_upto(occ: u64, f: int, dr: int, df: int, kmax: int, t: int) -> bool {
    exists|k: int|
        1 <= k < kmax && dir_on_board(f, dr, df, k) && #[trigger] dir_target(f, dr, df, k) == t
            && clear_path(occ, f, dr, df, k)
}

/// Walks one ray from `sq`, collecting every square reached until the
/// first occupied square or the board edge stops it.
pub(crate) fn ray_attacks(occupied: u64, sq: u8, dr: i8, df: i8) -> (r: u64)
    requires
        sq < 64,
        -1 <= dr <= 1,
        -1 <= df <= 1,
        !(dr == 0 && df == 0),
    ensures
        forall|t: int| bit64(r, t) <==> ray_reaches(occupied, sq as int, dr as int, df as int, t),
{
    let mut acc: u64 = 0;
    let r0: i16 = (sq / 8) as i16;
    let f0: i16 = (sq % 8) as i16;
    let mut k: u8 = 1;
    let mut blocked = false;
    proof {
        broadcast use lemma_bit_zero;

    }
    while k <= 7
        invariant
            sq < 64,
            -1 <= dr as int <= 1,
            -1 <= df as int <= 1,
            !(dr == 0 && df == 0),
            r0 == sq_rank(sq as int),
            f0 == sq_file(sq as int),
            1 <= k <= 8,
            blocked == !clear_path(occupied, sq as int, dr as int, df as int, k as int),
            forall|t: int|
                bit64(acc, t) <==> reach_upto(
                    occupied,
                    sq as int,
                    dr as int,
                    df as int,
                    k as int,
                    t,
                ),
        decreases 8 - k,
    {
        let ghost fi = sq as int;
        let ghost dri = dr as int;
        let ghost dfi = df as int;
        let ghost ki = k as int;
        proof {
            assert(-7 <= ki * dri <= 7 && -7 <= ki * dfi <= 7) by (nonlinear_arith)
                requires
                    1 <= ki <= 7,
                    -1 <= dri <= 1,
                    -1 <= dfi <= 1,
            ;
        }
        let nr: i16 = r0 + (k as i16) * (dr as i16);
        let nf: i16 = f0 + (k as i16) * (df as i16);
        proof {
            assert(nr as int == sq_rank(fi) + ki * dri && nf as int == sq_file(fi) + ki * dfi);
        }
        if !blocked && 0 <= nr && nr < 8 && 0 <= nf && nf < 8 {
            let t: u8 = (nr * 8 + nf) as u8;
            proof {
                assert(t as int == dir_target(fi, dri, dfi, ki));
                assert(dir_on_board(fi, dri, dfi, ki));
            }
            let ghost accp = acc;
            acc = acc | (1u64 << (t as u64));
            let hit = occupied & (1u64 << (t as u64)) != 0;
            proof {
                lemma_mask_test(occupied, t as int);
                assert forall|u: int| bit64(acc, u) <==> (bit64(accp, u) || u == t as int) by {
                    crate::bits::lemma_set_bit(accp, t as int, u);
                }
                assert forall|u: int|
                    bit64(acc, u) implies reach_upto(occupied, fi, dri, dfi, ki + 1, u) by {
                    if bit64(accp, u) {
                        let kw = choose|kw: int|
                            1 <= kw < ki && dir_on_board(fi, dri, dfi, kw) && #[trigger] dir_target(
                                fi,
                                dri,
                                dfi,
                                kw,
                            ) == u && clear_path(occupied, fi, dri, dfi, kw);
                        assert(1 <= kw < ki + 1 && dir_target(fi, dri, dfi, kw) == u);
                    } else {
                        assert(dir_target(fi, dri, dfi, ki) == u && 1 <= ki < ki + 1);
                    }
                }
                assert forall|u: int|
                    reach_upto(occupied, fi, dri, dfi, ki + 1, u) implies bit64(acc, u) by {
                    let kw = choose|kw: int|
                        1 <= kw < ki + 1 && dir_on_board(fi, dri, dfi, kw) && #[trigger] dir_target(
                            fi,
                            dri,
                            dfi,
                            kw,
                        ) == u && clear_path(occupied, fi, dri, dfi, kw);
                    if kw == ki {
                        assert(u == t as int);
                    }
                }
                if hit {
                    assert(!clear_path(occupied, fi, dri, dfi, ki + 1)) by {
                        assert(bit64(occupied, dir_target(fi, dri, dfi, ki)));
                    }
                } else {
                    assert(clear_path(occupied, fi, dri, dfi, ki + 1)) by {
                        assert forall|j: int|
                            1 <= j < ki + 1 && dir_on_board(fi, dri, dfi, j) implies !bit64(
                            occupied,
                            #[trigger] dir_target(fi, dri, dfi, j),
                        ) by {
                            if j == ki {
                                assert(!bit64(occupied, dir_target(fi, dri, dfi, ki)));
                            }
                        }
                    }
                }
            }
            if hit {
                blocked = true;
            }
        } else {
            proof {
                assert forall|u: int|
                    reach_upto(occupied, fi, dri, dfi, ki + 1, u) implies reach_upto(
                    occupied,
                    fi,
                    dri,
                    dfi,
                    ki,
                    u,
                ) by {
                    let kw = choose|kw: int|
                        1 <= kw < ki + 1 && dir_on_board(fi, dri, dfi, kw) && #[trigger] dir_target(
                            fi,
                            dri,
                            dfi,
                            kw,
                        ) == u && clear_path(occupied, fi, dri, dfi, kw);
                    if kw == ki {
                        if blocked {
                            assert(false);
                        } else {
                            assert(!dir_on_board(fi, dri, dfi, ki));
                            assert(false);
                        }
                    }
                }
                if blocked {
                    assert(!clear_path(occupied, fi, dri, dfi, ki + 1));
                } else {
                    assert(clear_path(occupied, fi, dri, dfi, ki + 1)) by {
                        assert forall|j: int|
                            1 <= j < ki + 1 && dir_on_board(fi, dri, dfi, j) implies !bit64(
                            occupied,
                            #[trigger] dir_target(fi, dri, dfi, j),
                        ) by {
                            if j == ki {
                                assert(!dir_on_board(fi, dri, dfi, ki));
                            }
                        }
                    }
                }
            }
        }
        k = k + 1;
    }
    proof {
        assert forall|t: int|
            ray_reaches(occupied, sq as int, dr as int, df as int, t) <==> reach_upto(
            occupied,
            sq as int,
            dr as int,
            df as int,
            8,
            t,
        ) by {}
    }
    acc
}

/// Every square but the a-file.
pub const NOT_A_FILE: u64 = 0xfefefefefefefefe;

/// Every square but the h-file.
pub const NOT_H_FILE: u64 = 0x7f7f7f7f7f7f7f7f;

/// Some piece of the set `bb` jumps to `t` as a knight.
pub open spec fn knights_reach(bb: u64, t: int) -> bool {
    exists|f: int| #[trigger] bit64(bb, f) && knight_jump(f, t)
}

/// Some piece of the set `bb` steps to `t` as a king.
pub open spec fn kings_reach(bb: u64, t: int) -> bool {
    exists|f: int| #[trigger] bit64(bb, f) && king_step(f, t)
}

/// Some piece of the set `bb` bears on `t` along a rank or file.
pub open spec fn rooks_reach(bb: u64, occ: u64, t: int) -> bool {
    exists|f: int| #[trigger] bit64(bb, f) && rook_reach(occ, f, t)
}

/// Some piece of the set `bb` bears on `t` along a diagonal.
pub open spec fn bishops_reach(bb: u64, occ: u64, t: int) -> bool {
    exists|f: int| #[trigger] bit64(bb, f) && bishop_reach(occ, f, t)
}

/// Some pawn of the set `bb` attacks `t` diagonally.
pub open spec fn pawns_reach(c: Color, bb: u64, t: int) -> bool {
    exists|f: int| #[trigger] bit64(bb, f) && pawn_attack(c, f, t)
}

/// The union of knight jumps from every piece of `bb`.
fn knight_attacks_of(bb: u64) -> (r: u64)
    ensures
        forall|t: int| bit64(r, t) <==> knights_reach(bb, t),
{
    let mut acc: u64 = 0;
    let mut bits: u64 = bb;
    proof {
        broadcast use lemma_bit_zero;

    }
    while bits != 0
        invariant
            forall|f: int| bit64(bits, f) ==> bit64(bb, f),
            forall|t: int|
                bit64(acc, t) <==> exists|f: int|
                    #[trigger] bit64(bb, f) && !bit64(bits, f) && knight_jump(f, t),
        decreases bits,
    {
        proof {
            crate::bits::lemma_lowest_bit(bits);
        }
        let sq: u8 = bits.trailing_zeros() as u8;
        let ghost oldbits = bits;
        let ghost oldacc = acc;
        bits = bits & (bits - 1);
        let mask = knight_mask_of(sq);
        acc = acc | mask;
        proof {
            assert forall|f: int| #[trigger]
                bit64(bits, f) == (f != sq as int && bit64(oldbits, f)) by {
                crate::bits::lemma_clear_bit(
                    oldbits,
                    vstd::std_specs::bits::u64_trailing_zeros(oldbits) as int,
                    f,
                );
            }
            assert forall|t: int|
                bit64(acc, t) <==> (bit64(oldacc, t) || bit64(mask, t)) by {
                lemma_bit_or(oldacc, mask, t);
            }
            assert forall|t: int| bit64(acc, t) implies (exists|f: int|
                #[trigger] bit64(bb, f) && !bit64(bits, f) && knight_jump(f, t)) by {
                if bit64(oldacc, t) {
                    let f = choose|f: int|
                        #[trigger] bit64(bb, f) && !bit64(oldbits, f) && knight_jump(f, t);
                    assert(bit64(bb, f) && !bit64(bits, f));
                } else {
                    assert(bit64(bb, sq as int) && !bit64(bits, sq as int) && knight_jump(
                        sq as int,
                        t,
                    ));
                }
            }
        }
    }
    acc
}

/// The union of king steps from every piece of `bb`.
fn king_attacks_of(bb: u64) -> (r: u64)
    ensures
        forall|t: int| bit64(r, t) <==> kings_reach(bb, t),
{
    let mut acc: u64 = 0;
    let mut bits: u64 = bb;
    proof {
        broadcast use lemma_bit_zero;

    }
    while bits != 0
        invariant
            forall|f: int| bit64(bits, f) ==> bit64(bb, f),
            forall|t: int|
                bit64(acc, t) <==> exists|f: int|
                    #[trigger] bit64(bb, f) && !bit64(bits, f) && king_step(f, t),
        decreases bits,
    {
        proof {
            crate::bits::lemma_lowest_bit(bits);
        }
        let sq: u8 = bits.trailing_zeros() as u8;
        let ghost oldbits = bits;
        let ghost oldacc = acc;
        bits = bits & (bits - 1);
        let mask = king_mask_of(sq);
        acc = acc | mask;
        proof {
            assert forall|f: int| #[trigger]
                bit64(bits, f) == (f != sq as int && bit64(oldbits, f)) by {
                crate::bits::lemma_clear_bit(
                    oldbits,
                    vstd::std_specs::bits::u64_trailing_zeros(oldbits) as int,
                    f,
                );
            }
            assert forall|t: int|
                bit64(acc, t) <==> (bit64(oldacc, t) || bit64(mask, t)) by {
                lemma_bit_or(oldacc, mask, t);
            }
            assert forall|t: int| bit64(acc, t) implies (exists|f: int|
                #[trigger] bit64(bb, f) && !bit64(bits, f) && king_step(f, t)) by {
                if bit64(oldacc, t) {
                    let f = choose|f: int|
                        #[trigger] bit64(bb, f) && !bit64(oldbits, f) && king_step(f, t);
                    assert(bit64(bb, f) && !bit64(bits, f));
                } else {
                    assert(bit64(bb, sq as int) && !bit64(bits, sq as int) && king_step(
                        sq as int,
                        t,
                    ));
                }
            }
        }
    }
    acc
}

/// The four rook rays from one square, united.
pub(crate) fn rook_rays(occ: u64, sq: u8) -> (r: u64)
    requires
        sq < 64,
    ensures
        forall|t: int| bit64(r, t) <==> rook_reach(occ, sq as int, t),
{
    let a = ray_attacks(occ, sq, 1, 0);
    let b = ray_attacks(occ, sq, -1, 0);
    let c = ray_attacks(occ, sq, 0, 1);
    let d = ray_attacks(occ, sq, 0, -1);
    let r = a | b | c | d;
    proof {
        assert forall|t: int|
            bit64(r, t) <==> (bit64(a, t) || bit64(b, t) || bit64(c, t) || bit64(d, t)) by {
            lemma_bit_or(a | b | c, d, t);
            lemma_bit_or(a | b, c, t);
            lemma_bit_or(a, b, t);
        }
    }
    r
}

/// The four bishop rays from one square, united.
pub(crate) fn bishop_rays(occ: u64, sq: u8) -> (r: u64)
    requires
        sq < 64,
    ensures
        forall|t: int| bit64(r, t) <==> bishop_reach(occ, sq as int, t),
{
    let a = ray_attacks(occ, sq, 1, 1);
    let b = ray_attacks(occ, sq, 1, -1);
    let c = ray_attacks(occ, sq, -1, 1);
    let d = ray_attacks(occ, sq, -1, -1);
    let r = a | b | c | d;
    proof {
        assert forall|t: int|
            bit64(r, t) <==> (bit64(a, t) || bit64(b, t) || bit64(c, t) || bit64(d, t)) by {
            lemma_bit_or(a | b | c, d, t);
            lemma_bit_or(a | b, c, t);
            lemma_bit_or(a, b, t);
        }
    }
    r
}

/// The union of rook rays from every piece of `bb`.
fn rook_attacks_of(bb: u64, occ: u64) -> (r: u64)
    ensures
        forall|t: int| bit64(r, t) <==> rooks_reach(bb, occ, t),
{
    let mut acc: u64 = 0;
    let mut bits: u64 = bb;
    proof {
        broadcast use lemma_bit_zero;

    }
    while bits != 0
        invariant
            forall|f: int| bit64(bits, f) ==> bit64(bb, f),
            forall|t: int|
                bit64(acc, t) <==> exists|f: int|
                    #[trigger] bit64(bb, f) && !bit64(bits, f) && rook_reach(occ, f, t),
        decreases bits,
    {
        proof {
            crate::bits::lemma_lowest_bit(bits);
        }
        let sq: u8 = bits.trailing_zeros() as u8;
        let ghost oldbits = bits;
        let ghost oldacc = acc;
        bits = bits & (bits - 1);
        let mask = rook_rays(occ, sq);
        acc = acc | mask;
        proof {
            assert forall|f: int| #[trigger]
                bit64(bits, f) == (f != sq as int && bit64(oldbits, f)) by {
                crate::bits::lemma_clear_bit(
                    oldbits,
                    vstd::std_specs::bits::u64_trailing_zeros(oldbits) as int,
                    f,
                );
            }
            assert forall|t: int|
                bit64(acc, t) <==> (bit64(oldacc, t) || bit64(mask, t)) by {
                lemma_bit_or(oldacc, mask, t);
            }
            assert forall|t: int| bit64(acc, t) implies (exists|f: int|
                #[trigger] bit64(bb, f) && !bit64(bits, f) && rook_reach(occ, f, t)) by {
                if bit64(oldacc, t) {
                    let f = choose|f: int|
                        #[trigger] bit64(bb, f) && !bit64(oldbits, f) && rook_reach(occ, f, t);
                    assert(bit64(bb, f) && !bit64(bits, f));
                } else {
                    assert(bit64(bb, sq as int) && !bit64(bits, sq as int) && rook_reach(
                        occ,
                        sq as int,
                        t,
                    ));
                }
            }
        }
    }
    acc
}

/// The union of bishop rays from every piece of `bb`.
fn bishop_attacks_of(bb: u64, occ: u64) -> (r: u64)
    ensures
        forall|t: int| bit64(r, t) <==> bishops_reach(bb, occ, t),
{
    let mut acc: u64 = 0;
    let mut bits: u64 = bb;
    proof {
        broadcast use lemma_bit_zero;

    }
    while bits != 0
        invariant
            forall|f: int| bit64(bits, f) ==> bit64(bb, f),
            forall|t: int|
                bit64(acc, t) <==> exists|f: int|
                    #[trigger] bit64(bb, f) && !bit64(bits, f) && bishop_reach(occ, f, t),
        decreases bits,
    {
        proof {
            crate::bits::lemma_lowest_bit(bits);
        }
        let sq: u8 = bits.trailing_zeros() as u8;
        let ghost oldbits = bits;
        let ghost oldacc = acc;
        bits = bits & (bits - 1);
        let mask = bishop_rays(occ, sq);
        acc = acc | mask;
        proof {
            assert forall|f: int| #[trigger]
                bit64(bits, f) == (f != sq as int && bit64(oldbits, f)) by {
                crate::bits::lemma_clear_bit(
                    oldbits,
                    vstd::std_specs::bits::u64_trailing_zeros(oldbits) as int,
                    f,
                );
            }
            assert forall|t: int|
                bit64(acc, t) <==> (bit64(oldacc, t) || bit64(mask, t)) by {
                lemma_bit_or(oldacc, mask, t);
            }
            assert forall|t: int| bit64(acc, t) implies (exists|f: int|
                #[trigger] bit64(bb, f) && !bit64(bits, f) && bishop_reach(occ, f, t)) by {
                if bit64(oldacc, t) {
                    let f = choose|f: int|
                        #[trigger] bit64(bb, f) && !bit64(oldbits, f) && bishop_reach(occ, f, t);
                    assert(bit64(bb, f) && !bit64(bits, f));
                } else {
                    assert(bit64(bb, sq as int) && !bit64(bits, sq as int) && bishop_reach(
                        occ,
                        sq as int,
                        t,
                    ));
                }
            }
        }
    }
    acc
}

/// Bit `t` of a left shift reads bit `t - s` of the source.
proof fn lemma_shl_bit(p: u64, s: u64, t: int)
    requires
        0 < s < 64,
    ensures
        bit64(p << s, t) <==> (s <= t < 64 && bit64(p, t - s)),
{
    if 0 <= t < 64 {
        let tu = t as u64;
        if tu >= s {
            assert((((p << s) >> tu) & 1u64 == 1u64) <==> ((p >> ((tu - s) as u64)) & 1u64
                == 1u64)) by (bit_vector)
                requires
                    s <= tu < 64u64,
                    0u64 < s < 64u64,
            ;
        } else {
            assert(((p << s) >> tu) & 1u64 == 0u64) by (bit_vector)
                requires
                    tu < s < 64u64,
            ;
        }
    }
}

/// Bit `t` of a right shift reads bit `t + s` of the source.
proof fn lemma_shr_bit(p: u64, s: u64, t: int)
    requires
        0 < s < 64,
    ensures
        bit64(p >> s, t) <==> (0 <= t && t + s < 64 && bit64(p, t + s)),
{
    if 0 <= t < 64 {
        let tu = t as u64;
        if tu + s < 64 {
            assert((((p >> s) >> tu) & 1u64 == 1u64) <==> ((p >> ((tu + s) as u64)) & 1u64
                == 1u64)) by (bit_vector)
                requires
                    tu + s < 64u64,
                    0u64 < s < 64u64,
            ;
        } else {
            assert(((p >> s) >> tu) & 1u64 == 0u64) by (bit_vector)
                requires
                    tu < 64u64,
                    s < 64u64,
                    tu + s >= 64u64,
            ;
        }
    }
}

/// The h-file mask clears exactly the squares on file 7.
proof fn lemma_not_h_bit(x: u64, t: int)
    ensures
        bit64(x & NOT_H_FILE, t) <==> (bit64(x, t) && t % 8 != 7),
{
    if 0 <= t < 64 {
        let tu = t as u64;
        assert((((x & 0x7f7f7f7f7f7f7f7fu64) >> tu) & 1u64 == 1u64) <==> (((x >> tu) & 1u64
            == 1u64) && tu % 8 != 7)) by (bit_vector)
            requires
                tu < 64u64,
        ;
    }
}

/// The a-file mask clears exactly the squares on file 0.
proof fn lemma_not_a_bit(x: u64, t: int)
    ensures
        bit64(x & NOT_A_FILE, t) <==> (bit64(x, t) && t % 8 != 0),
{
    if 0 <= t < 64 {
        let tu = t as u64;
        assert((((x & 0xfefefefefefefefeu64) >> tu) & 1u64 == 1u64) <==> (((x >> tu) & 1u64
            == 1u64) && tu % 8 != 0)) by (bit_vector)
            requires
                tu < 64u64,
        ;
    }
}

/// A White pawn's diagonal reach in terms of square offsets.
pub proof fn lemma_pawn_white_geometry(f: int, t: int)
    requires
        on_board(f),
        on_board(t),
    ensures
        pawn_attack(Color::White, f, t) <==> ((t == f + 7 && sq_file(t) != 7) || (t == f + 9
            && sq_file(t) != 0)),
{
    lemma_coords_rev(f, t);
}

/// A Black pawn's diagonal reach in terms of square offsets.
pub proof fn lemma_pawn_black_geometry(f: int, t: int)
    requires
        on_board(f),
        on_board(t),
    ensures
        pawn_attack(Color::Black, f, t) <==> ((t == f - 7 && sq_file(t) != 0) || (t == f - 9
            && sq_file(t) != 7)),
{
    lemma_coords_rev(f, t);
}

/// The two shift-and-mask words cover exactly the squares some pawn of
/// `p` attacks.
proof fn lemma_pawn_shifts(c: Color, p: u64, t: int)
    ensures
        (match c {
            Color::White => bit64((p << 7u64) & NOT_H_FILE, t) || bit64(
                (p << 9u64) & NOT_A_FILE,
                t,
            ),
            Color::Black => bit64((p >> 7u64) & NOT_A_FILE, t) || bit64(
                (p >> 9u64) & NOT_H_FILE,
                t,
            ),
        }) <==> pawns_reach(c, p, t),
{
    match c {
        Color::White => {
            lemma_not_h_bit(p << 7u64, t);
            lemma_not_a_bit(p << 9u64, t);
            lemma_shl_bit(p, 7u64, t);
            lemma_shl_bit(p, 9u64, t);
            if bit64((p << 7u64) & NOT_H_FILE, t) {
                lemma_pawn_white_geometry(t - 7, t);
                assert(bit64(p, t - 7) && pawn_attack(Color::White, t - 7, t));
            }
            if bit64((p << 9u64) & NOT_A_FILE, t) {
                lemma_pawn_white_geometry(t - 9, t);
                assert(bit64(p, t - 9) && pawn_attack(Color::White, t - 9, t));
            }
            if pawns_reach(c, p, t) {
                let f = choose|f: int| #[trigger] bit64(p, f) && pawn_attack(c, f, t);
                lemma_pawn_white_geometry(f, t);
            }
        },
        Color::Black => {
            lemma_not_a_bit(p >> 7u64, t);
            lemma_not_h_bit(p >> 9u64, t);
            lemma_shr_bit(p, 7u64, t);
            lemma_shr_bit(p, 9u64, t);
            if bit64((p >> 7u64) & NOT_A_FILE, t) {
                lemma_pawn_black_geometry(t + 7, t);
                assert(bit64(p, t + 7) && pawn_attack(Color::Black, t + 7, t));
            }
            if bit64((p >> 9u64) & NOT_H_FILE, t) {
                lemma_pawn_black_geometry(t + 9, t);
                assert(bit64(p, t + 9) && pawn_attack(Color::Black, t + 9, t));
            }
            if pawns_reach(c, p, t) {
                let f = choose|f: int| #[trigger] bit64(p, f) && pawn_attack(c, f, t);
                lemma_pawn_black_geometry(f, t);
            }
        },
    }
}

impl BitboardBoard {
    /// The squares a rook on `square` bears on, over the current occupancy.
    pub(crate) fn get_rook_attacks(&self, square: Square) -> (r: u64)
        requires
            board_ok(self@),
            square.0 < 64,
        ensures
            forall|t: int| bit64(r, t) <==> rook_reach(all_mask(self@), square.0 as int, t),
    {
        let occupied = self.get_all_pieces_mask();
        rook_rays(occupied, square.0)
    }

    /// The squares a bishop on `square` bears on, over the current occupancy.
    pub(crate) fn get_bishop_attacks(&self, square: Square) -> (r: u64)
        requires
            board_ok(self@),
            square.0 < 64,
        ensures
            forall|t: int| bit64(r, t) <==> bishop_reach(all_mask(self@), square.0 as int, t),
    {
        let occupied = self.get_all_pieces_mask();
        bishop_rays(occupied, square.0)
    }

    /// The set of all squares attacked by the pieces of `color`: pawn
    /// diagonals, knight jumps, king steps, and unblocked slider rays,
    /// own-occupied squares included.
    pub fn generate_attack_map(&self, color: Color) -> (r: u64)
        requires
            board_ok(self@),
        ensures
            forall|t: int| bit64(r, t) <==> attacked(self@, color, t),
    {
        let ghost m = self@;
        let occ = self.get_all_pieces_mask();
        let pawns = self.bitboard(self.get_bitboard_index(color, PieceKind::Pawn));
        let knights = self.bitboard(self.get_bitboard_index(color, PieceKind::Knight));
        let kings = self.bitboard(self.get_bitboard_index(color, PieceKind::King));
        let bishops = self.bitboard(self.get_bitboard_index(color, PieceKind::Bishop));
        let rooks = self.bitboard(self.get_bitboard_index(color, PieceKind::Rook));
        let queens = self.bitboard(self.get_bitboard_index(color, PieceKind::Queen));

        let pawn_part: u64 = if color == Color::White {
            ((pawns << 7u64) & NOT_H_FILE) | ((pawns << 9u64) & NOT_A_FILE)
        } else {
            ((pawns >> 7u64) & NOT_A_FILE) | ((pawns >> 9u64) & NOT_H_FILE)
        };
        let knight_part = knight_attacks_of(knights);
        let king_part = king_attacks_of(kings);
        let bishop_part = bishop_attacks_of(bishops, occ);
        let rook_part = rook_attacks_of(rooks, occ);
        let queen_rook_part = rook_attacks_of(queens, occ);
        let queen_bishop_part = bishop_attacks_of(queens, occ);

        let r = pawn_part | knight_part | king_part | bishop_part | rook_part | queen_rook_part
            | queen_bishop_part;
        proof {
            assert forall|t: int|
                bit64(r, t) <==> (bit64(pawn_part, t) || bit64(knight_part, t) || bit64(
                    king_part,
                    t,
                ) || bit64(bishop_part, t) || bit64(rook_part, t) || bit64(queen_rook_part, t)
                    || bit64(queen_bishop_part, t)) by {
                lemma_bit_or(
                    pawn_part | knight_part | king_part | bishop_part | rook_part
                        | queen_rook_part,
                    queen_bishop_part,
                    t,
                );
                lemma_bit_or(
                    pawn_part | knight_part | king_part | bishop_part | rook_part,
                    queen_rook_part,
                    t,
                );
                lemma_bit_or(pawn_part | knight_part | king_part | bishop_part, rook_part, t);
                lemma_bit_or(pawn_part | knight_part | king_part, bishop_part, t);
                lemma_bit_or(pawn_part | knight_part, king_part, t);
                lemma_bit_or(pawn_part, knight_part, t);
            }
            assert forall|t: int|
                bit64(pawn_part, t) <==> pawns_reach(color, pawns, t) by {
                if color == Color::White {
                    lemma_bit_or((pawns << 7u64) & NOT_H_FILE, (pawns << 9u64) & NOT_A_FILE, t);
                } else {
                    lemma_bit_or((pawns >> 7u64) & NOT_A_FILE, (pawns >> 9u64) & NOT_H_FILE, t);
                }
                lemma_pawn_shifts(color, pawns, t);
            }
            assert forall|t: int| bit64(r, t) implies attacked(m, color, t) by {
                if bit64(pawn_part, t) {
                    let f = choose|f: int| #[trigger] bit64(pawns, f) && pawn_attack(color, f, t);
                    assert(bit64(m.bbs[idx_of(color, PieceKind::Pawn)], f));
                } else if bit64(knight_part, t) {
                    let f = choose|f: int| #[trigger] bit64(knights, f) && knight_jump(f, t);
                    assert(bit64(m.bbs[idx_of(color, PieceKind::Knight)], f));
                } else if bit64(king_part, t) {
                    let f = choose|f: int| #[trigger] bit64(kings, f) && king_step(f, t);
                    assert(bit64(m.bbs[idx_of(color, PieceKind::King)], f));
                } else if bit64(bishop_part, t) {
                    let f = choose|f: int| #[trigger] bit64(bishops, f) && bishop_reach(occ, f, t);
                    assert(bit64(m.bbs[idx_of(color, PieceKind::Bishop)], f));
                } else if bit64(rook_part, t) {
                    let f = choose|f: int| #[trigger] bit64(rooks, f) && rook_reach(occ, f, t);
                    assert(bit64(m.bbs[idx_of(color, PieceKind::Rook)], f));
                } else if bit64(queen_rook_part, t) {
                    let f = choose|f: int| #[trigger] bit64(queens, f) && rook_reach(occ, f, t);
                    assert(bit64(m.bbs[idx_of(color, PieceKind::Queen)], f));
                } else {
                    let f = choose|f: int| #[trigger] bit64(queens, f) && bishop_reach(occ, f, t);
                    assert(bit64(m.bbs[idx_of(color, PieceKind::Queen)], f));
                }
            }
            assert forall|t: int| attacked(m, color, t) implies bit64(r, t) by {
                let f = choose|f: int|
                    on_board(f) && {
                        ||| (bit64(m.bbs[idx_of(color, PieceKind::Pawn)], f) && pawn_attack(
                            color,
                            f,
                            t,
                        ))
                        ||| (bit64(m.bbs[idx_of(color, PieceKind::Knight)], f) && knight_jump(
                            f,
                            t,
                        ))
                        ||| (bit64(m.bbs[idx_of(color, PieceKind::King)], f) && king_step(f, t))
                        ||| (bit64(m.bbs[idx_of(color, PieceKind::Bishop)], f) && bishop_reach(
                            all_mask(m),
                            f,
                            t,
                        ))
                        ||| (bit64(m.bbs[idx_of(color, PieceKind::Rook)], f) && rook_reach(
                            all_mask(m),
                            f,
                            t,
                        ))
                        ||| (bit64(m.bbs[idx_of(color, PieceKind::Queen)], f) && (rook_reach(
                            all_mask(m),
                            f,
                            t,
                        ) || bishop_reach(all_mask(m), f, t)))
                    };
                if bit64(m.bbs[idx_of(color, PieceKind::Pawn)], f) && pawn_attack(color, f, t) {
                    assert(pawns_reach(color, pawns, t));
                }
            }
        }
        r
    }

    /// Whether `color` is in check: its king square is attacked by the
    /// other side, or the king is altogether missing.
    pub fn is_in_check(&self, color: Color) -> (r: bool)
        requires
            board_ok(self@),
        ensures
            r == in_check_spec(self@, color),
    {
        let king_bb = self.bitboard(self.get_bitboard_index(color, PieceKind::King));
        if king_bb == 0 {
            return true;
        }
        proof {
            crate::bits::lemma_lowest_bit(king_bb);
        }
        let king_square = king_bb.trailing_zeros() as u8;
        let attack_map = self.generate_attack_map(color.opposite());
        proof {
            lemma_mask_test(attack_map, king_square as int);
        }
        (attack_map & (1u64 << (king_square as u64))) != 0
    }
}

/// A knight jump spans two files at most.
proof fn lemma_knight_jump_files(f: int, t: int)
    requires
        knight_jump(f, t),
    ensures
        abs_of(sq_file(f) - sq_file(t)) <= 2,
{
}

/// An offset from the knight table lands on a jump square exactly when the
/// file distance stays at most two.
proof fn lemma_knight_offset(f: int, t: int, off: int)
    requires
        on_board(f),
        on_board(t),
        t == f + off,
        off == 15 || off == 17 || off == 10 || off == 6 || off == -15 || off == -17 || off == -10
            || off == -6,
    ensures
        knight_jump(f, t) <==> abs_of(sq_file(f) - sq_file(t)) <= 2,
{
    lemma_coords_rev(f, t);
}

/// Every knight jump is one of the eight table offsets.
proof fn lemma_knight_decompose(f: int, t: int)
    requires
        knight_jump(f, t),
    ensures
        t - f == 15 || t - f == 17 || t - f == 10 || t - f == 6 || t - f == -15 || t - f == -17
            || t - f == -10 || t - f == -6,
{
    lemma_coords_rev(f, t);
}

} // verus!
