//! The six-field position record: piece placement by rank with run-length
//! encoded empty squares, side to move, castling rights, en-passant target,
//! halfmove clock, and fullmove number. Export and import are specified as
//! pure functions on the model and the executable code is proved against
//! them.

use vstd::prelude::*;
use vstd::string::StrSliceExecFns;
use vstd::string::StringExecFns;
use crate::model::board_ok;
use crate::model::ep_sq_ok;
use crate::model::model_wf;
use crate::model::spec_piece_at;
use crate::model::BoardModel;
use crate::model::CASTLE_BLACK_KINGSIDE;
use crate::model::CASTLE_BLACK_QUEENSIDE;
use crate::model::CASTLE_WHITE_KINGSIDE;
use crate::model::CASTLE_WHITE_QUEENSIDE;
use crate::position::BitboardBoard;
use crate::types::spec_notation;
use crate::types::Color;
use crate::types::Piece;
use crate::types::PieceKind;
use crate::types::Square;

verus! {

/// The record letter of a piece: lowercase for Black, uppercase for White.
pub open spec fn piece_char(p: Piece) -> char {
    match (p.color, p.kind) {
        (Color::White, PieceKind::Pawn) => 'P',
        (Color::White, PieceKind::Knight) => 'N',
        (Color::White, PieceKind::Bishop) => 'B',
        (Color::White, PieceKind::Rook) => 'R',
        (Color::White, PieceKind::Queen) => 'Q',
        (Color::White, PieceKind::King) => 'K',
        (Color::Black, PieceKind::Pawn) => 'p',
        (Color::Black, PieceKind::Knight) => 'n',
        (Color::Black, PieceKind::Bishop) => 'b',
        (Color::Black, PieceKind::Rook) => 'r',
        (Color::Black, PieceKind::Queen) => 'q',
        (Color::Black, PieceKind::King) => 'k',
    }
}

/// The decimal digit character for `d`.
pub open spec fn digit_char(d: int) -> char {
    (('0' as u8) + d as u8) as char
}

/// A pending run of empty squares, written as one digit when nonempty.
pub open spec fn empties_chars(e: int) -> Seq<char> {
    if e > 0 {
        seq![digit_char(e)]
    } else {
        Seq::empty()
    }
}

/// The rest of one rank's placement text, from `file` on, with `empties`
/// empty squares pending before it.
pub open spec fn rank_tail(m: BoardModel, rank: int, file: int, empties: int) -> Seq<char>
    decreases 8 - file,
    when file <= 8
{
    if file >= 8 {
        empties_chars(empties)
    } else {
        match spec_piece_at(m, rank * 8 + file) {
            None => rank_tail(m, rank, file + 1, empties + 1),
            Some(p) => empties_chars(empties) + seq![piece_char(p)] + rank_tail(
                m,
                rank,
                file + 1,
                0,
            ),
        }
    }
}

/// The placement text from `rank` down to rank 0, slash-separated.
pub open spec fn ranks_chars(m: BoardModel, rank: int) -> Seq<char>
    decreases rank,
    when rank >= 0
{
    if rank <= 0 {
        rank_tail(m, 0, 0, 0)
    } else {
        rank_tail(m, rank, 0, 0) + seq!['/'] + ranks_chars(m, rank - 1)
    }
}

/// The full placement field: ranks 8 down to 1.
pub open spec fn placement_chars(m: BoardModel) -> Seq<char> {
    ranks_chars(m, 7)
}

/// The side-to-move letter.
pub open spec fn side_char(c: Color) -> char {
    match c {
        Color::White => 'w',
        Color::Black => 'b',
    }
}

/// The castling field: the letters of the surviving rights in `KQkq`
/// order, or `-` when none survive.
pub open spec fn castle_chars(r: u8) -> Seq<char> {
    let s = (if r & CASTLE_WHITE_KINGSIDE != 0 {
        seq!['K']
    } else {
        Seq::empty()
    }) + (if r & CASTLE_WHITE_QUEENSIDE != 0 {
        seq!['Q']
    } else {
        Seq::empty()
    }) + (if r & CASTLE_BLACK_KINGSIDE != 0 {
        seq!['k']
    } else {
        Seq::empty()
    }) + (if r & CASTLE_BLACK_QUEENSIDE != 0 {
        seq!['q']
    } else {
        Seq::empty()
    });
    if s.len() == 0 {
        seq!['-']
    } else {
        s
    }
}

/// The en-passant field: the target's algebraic name, or `-`.
pub open spec fn ep_chars(ep: Option<Square>) -> Seq<char> {
    match ep {
        None => seq!['-'],
        Some(sq) => spec_notation(sq.0 as int),
    }
}

/// The decimal text of a nonnegative number, most significant digit first.
pub open spec fn dec_chars(n: int) -> Seq<char>
    decreases n,
    when n >= 0
{
    if n < 10 {
        seq![digit_char(n)]
    } else {
        dec_chars(n / 10) + seq![digit_char(n % 10)]
    }
}

/// The whole record: six fields joined by single spaces.
pub open spec fn fen_chars(m: BoardModel) -> Seq<char> {
    placement_chars(m) + seq![' '] + seq![side_char(m.side)] + seq![' '] + castle_chars(m.rights)
        + seq![' '] + ep_chars(m.ep) + seq![' '] + dec_chars(m.halfmove as int) + seq![' ']
        + dec_chars(m.fullmove as int)
}

/// The record split at every single space; one more field than spaces.
pub open spec fn split_sp(s: Seq<char>) -> Seq<Seq<char>>
    decreases s.len(),
{
    if s.len() == 0 {
        seq![Seq::<char>::empty()]
    } else {
        let rest = split_sp(s.drop_first());
        if s[0] == ' ' {
            seq![Seq::<char>::empty()] + rest
        } else {
            seq![seq![s[0]] + rest[0]] + rest.drop_first()
        }
    }
}

/// Splitting always yields at least one field.
pub proof fn lemma_split_len(s: Seq<char>)
    ensures
        split_sp(s).len() >= 1,
    decreases s.len(),
{
    if s.len() > 0 {
        lemma_split_len(s.drop_first());
    }
}

/// The piece-set index a placement letter stands for, if it is one.
pub open spec fn piece_idx_of_char(c: char) -> Option<int> {
    if c == 'P' {
        Some(0int)
    } else if c == 'N' {
        Some(1int)
    } else if c == 'B' {
        Some(2int)
    } else if c == 'R' {
        Some(3int)
    } else if c == 'Q' {
        Some(4int)
    } else if c == 'K' {
        Some(5int)
    } else if c == 'p' {
        Some(6int)
    } else if c == 'n' {
        Some(7int)
    } else if c == 'b' {
        Some(8int)
    } else if c == 'r' {
        Some(9int)
    } else if c == 'q' {
        Some(10int)
    } else if c == 'k' {
        Some(11int)
    } else {
        None
    }
}

/// Decodes the placement field from position `i` on, at the given rank and
/// file, into the accumulated piece sets: digits skip empty squares, letters
/// place pieces, and `/` closes a full rank.
pub open spec fn place_rec(s: Seq<char>, i: int, rank: int, file: int, bbs: Seq<u64>) -> Option<
    Seq<u64>,
>
    decreases s.len() - i,
    when 0 <= i <= s.len()
{
    if i >= s.len() {
        if rank == 0 && file == 8 {
            Some(bbs)
        } else {
            None
        }
    } else {
        let c = s[i];
        if c == '/' {
            if file == 8 && rank > 0 {
                place_rec(s, i + 1, rank - 1, 0, bbs)
            } else {
                None
            }
        } else if '1' <= c && c <= '8' {
            let k = (c as int) - ('0' as int);
            if file + k <= 8 {
                place_rec(s, i + 1, rank, file + k, bbs)
            } else {
                None
            }
        } else {
            match piece_idx_of_char(c) {
                Some(pi) => {
                    if file < 8 {
                        place_rec(
                            s,
                            i + 1,
                            rank,
                            file + 1,
                            bbs.update(pi, crate::bits::set_bit(bbs[pi], rank * 8 + file)),
                        )
                    } else {
                        None
                    }
                },
                None => None,
            }
        }
    }
}

/// The piece sets a placement field describes, if it is well formed.
pub open spec fn parse_placement(s: Seq<char>) -> Option<Seq<u64>> {
    place_rec(s, 0, 7, 0, Seq::new(12, |i: int| 0u64))
}

/// The side a side field names.
pub open spec fn parse_side(f: Seq<char>) -> Option<Color> {
    if f == seq!['w'] {
        Some(Color::White)
    } else if f == seq!['b'] {
        Some(Color::Black)
    } else {
        None
    }
}

/// The flag value of a castling letter, or 0 for any other character.
pub open spec fn castle_flag_of(c: char) -> u8 {
    if c == 'K' {
        CASTLE_WHITE_KINGSIDE
    } else if c == 'Q' {
        CASTLE_WHITE_QUEENSIDE
    } else if c == 'k' {
        CASTLE_BLACK_KINGSIDE
    } else if c == 'q' {
        CASTLE_BLACK_QUEENSIDE
    } else {
        0
    }
}

/// Reads castling letters from `i` on; each flag must be strictly greater
/// than the one before, which enforces the canonical `KQkq` order.
pub open spec fn castle_rec(f: Seq<char>, i: int, prev: u8) -> Option<u8>
    decreases f.len() - i,
    when 0 <= i <= f.len()
{
    if i >= f.len() {
        Some(0u8)
    } else {
        let v = castle_flag_of(f[i]);
        if v == 0 || v <= prev {
            None
        } else {
            match castle_rec(f, i + 1, v) {
                Some(rest) => Some(v | rest),
                None => None,
            }
        }
    }
}

/// The rights a castling field names: `-` for none, else canonical letters.
pub open spec fn parse_castle(f: Seq<char>) -> Option<u8> {
    if f == seq!['-'] {
        Some(0u8)
    } else if f.len() == 0 {
        None
    } else {
        castle_rec(f, 0, 0)
    }
}

/// The en-passant target a field names: `-` for none, else a square name.
pub open spec fn parse_ep(f: Seq<char>) -> Option<Option<Square>> {
    if f == seq!['-'] {
        Some(None)
    } else {
        match crate::types::spec_square_of(f) {
            Some(sq) => Some(Some(sq)),
            None => None,
        }
    }
}

/// True for a decimal digit character.
pub open spec fn is_digit(c: char) -> bool {
    '0' <= c && c <= '9'
}

/// The number a digit string denotes.
pub open spec fn dec_val(f: Seq<char>) -> int
    decreases f.len(),
{
    if f.len() == 0 {
        0
    } else {
        dec_val(f.drop_last()) * 10 + ((f.last() as int) - ('0' as int))
    }
}

/// A canonical decimal field: nonempty, digits only, no leading zero.
pub open spec fn dec_ok(f: Seq<char>) -> bool {
    &&& f.len() >= 1
    &&& forall|i: int| 0 <= i < f.len() ==> is_digit(#[trigger] f[i])
    &&& (f.len() > 1 ==> f[0] != '0')
}

/// The value of a canonical decimal field no greater than `max`.
pub open spec fn parse_clock(f: Seq<char>, max: int) -> Option<int> {
    if dec_ok(f) && dec_val(f) <= max {
        Some(dec_val(f))
    } else {
        None
    }
}

/// The model a whole record describes: exactly six space-separated fields,
/// each well formed, with an empty undo history.
pub open spec fn parse_fen(s: Seq<char>) -> Option<BoardModel> {
    let fs = split_sp(s);
    if fs.len() != 6 {
        None
    } else {
        match (parse_placement(fs[0]), parse_side(fs[1]), parse_castle(fs[2]), parse_ep(fs[3])) {
            (Some(bbs), Some(side), Some(rights), Some(ep)) => {
                match (parse_clock(fs[4], 255), parse_clock(fs[5], 65535)) {
                    (Some(hm), Some(fm)) => Some(
                        BoardModel {
                            bbs,
                            side,
                            rights,
                            ep,
                            halfmove: hm as u8,
                            fullmove: fm as u16,
                            hist: Seq::empty(),
                        },
                    ),
                    _ => None,
                }
            },
            _ => None,
        }
    }
}

/// Digit-string prefixes denote nonnegative numbers.
proof fn lemma_dec_nonneg(f: Seq<char>, k: int)
    requires
        0 <= k <= f.len(),
        forall|i: int| 0 <= i < f.len() ==> is_digit(#[trigger] f[i]),
    ensures
        0 <= dec_val(f.subrange(0, k)),
    decreases k,
{
    if k > 0 {
        let pre = f.subrange(0, k);
        assert(pre.drop_last() =~= f.subrange(0, k - 1));
        lemma_dec_nonneg(f, k - 1);
        assert(is_digit(pre.last()));
    }
}

/// No digit-string prefix denotes more than the whole string.
proof fn lemma_dec_monotone(f: Seq<char>, k: int)
    requires
        0 <= k <= f.len(),
        forall|i: int| 0 <= i < f.len() ==> is_digit(#[trigger] f[i]),
    ensures
        dec_val(f.subrange(0, k)) <= dec_val(f),
    decreases f.len() - k,
{
    if k < f.len() {
        let nxt = f.subrange(0, k + 1);
        assert(nxt.drop_last() =~= f.subrange(0, k));
        assert(is_digit(nxt.last()));
        lemma_dec_nonneg(f, k);
        lemma_dec_monotone(f, k + 1);
    } else {
        assert(f.subrange(0, k) =~= f);
    }
}

/// Bitwise-or on flag bytes associates, and zero is its unit.
proof fn lemma_or_u8(a: u8, b: u8, c: u8)
    ensures
        a | (b | c) == (a | b) | c,
        a | 0 == a,
        0 | a == a,
{
    assert(a | (b | c) == (a | b) | c && a | 0 == a && 0 | a == a) by (bit_vector);
}

/// The placement field decoded to twelve piece sets.
fn parse_placement_field(f: &str) -> (r: Option<Vec<u64>>)
    ensures
        match r {
            Some(v) => parse_placement(f@) == Some(v@) && v@.len() == 12,
            None => parse_placement(f@) is None,
        },
{
    let n = f.unicode_len();
    let mut bbs: Vec<u64> = Vec::new();
    let mut z: usize = 0;
    while z < 12
        invariant
            0 <= z <= 12,
            bbs@.len() == z,
            forall|j: int| 0 <= j < z ==> bbs@[j] == 0u64,
        decreases 12 - z,
    {
        bbs.push(0u64);
        z = z + 1;
    }
    proof {
        assert(bbs@ =~= Seq::new(12, |i: int| 0u64));
    }
    let mut rank: u8 = 7;
    let mut file: u8 = 0;
    let mut i: usize = 0;
    while i < n
        invariant
            n == f@.len(),
            0 <= i <= n,
            rank <= 7,
            file <= 8,
            bbs@.len() == 12,
            parse_placement(f@) == place_rec(f@, i as int, rank as int, file as int, bbs@),
        decreases n - i,
    {
        let c = f.get_char(i);
        if c == '/' {
            if file == 8 && rank > 0 {
                rank = rank - 1;
                file = 0;
            } else {
                return None;
            }
        } else if c >= '1' && c <= '8' {
            let k: u8 = ((c as u32) - ('0' as u32)) as u8;
            if file + k <= 8 {
                file = file + k;
            } else {
                return None;
            }
        } else {
            match BitboardBoard::fen_char_to_bitboard_index(c) {
                Some(pi) => {
                    if file < 8 {
                        let sq: u8 = rank * 8 + file;
                        let bb = bbs[pi];
                        bbs.set(pi, bb | (1u64 << (sq as u64)));
                        file = file + 1;
                    } else {
                        return None;
                    }
                },
                None => {
                    return None;
                },
            }
        }
        i = i + 1;
    }
    if rank == 0 && file == 8 {
        Some(bbs)
    } else {
        None
    }
}

/// The side field decoded.
fn parse_side_field(f: &str) -> (r: Option<Color>)
    ensures
        r == parse_side(f@),
{
    let n = f.unicode_len();
    if n != 1 {
        return None;
    }
    let c = f.get_char(0);
    if c == 'w' {
        proof {
            assert(f@ =~= seq!['w']);
        }
        Some(Color::White)
    } else if c == 'b' {
        proof {
            assert(f@ =~= seq!['b']);
        }
        Some(Color::Black)
    } else {
        proof {
            assert(f@ != seq!['w'] && f@ != seq!['b']) by {
                assert(f@[0] == c);
            }
        }
        None
    }
}

/// The flag value of a castling letter.
fn castle_flag(c: char) -> (r: u8)
    ensures
        r == castle_flag_of(c),
{
    if c == 'K' {
        CASTLE_WHITE_KINGSIDE
    } else if c == 'Q' {
        CASTLE_WHITE_QUEENSIDE
    } else if c == 'k' {
        CASTLE_BLACK_KINGSIDE
    } else if c == 'q' {
        CASTLE_BLACK_QUEENSIDE
    } else {
        0
    }
}

/// The castling field decoded.
fn parse_castle_field(f: &str) -> (r: Option<u8>)
    ensures
        r == parse_castle(f@),
{
    let n = f.unicode_len();
    if n == 1 && f.get_char(0) == '-' {
        proof {
            assert(f@ =~= seq!['-']);
        }
        return Some(0);
    }
    proof {
        if n == 1 {
            assert(f@[0] != '-');
        }
        assert(f@ != seq!['-']);
    }
    if n == 0 {
        return None;
    }
    let mut prev: u8 = 0;
    let mut acc: u8 = 0;
    let mut i: usize = 0;
    proof {
        if castle_rec(f@, 0, 0) is Some {
            lemma_or_u8(castle_rec(f@, 0, 0).unwrap(), 0, 0);
        }
    }
    while i < n
        invariant
            n == f@.len(),
            0 <= i <= n,
            parse_castle(f@) == (match castle_rec(f@, i as int, prev) {
                Some(rest) => Some((acc | rest) as u8),
                None => None::<u8>,
            }),
        decreases n - i,
    {
        let c = f.get_char(i);
        let v = castle_flag(c);
        if v == 0 || v <= prev {
            return None;
        }
        proof {
            let ghost rest_opt = castle_rec(f@, i as int + 1, v);
            if rest_opt is Some {
                lemma_or_u8(acc, v, rest_opt.unwrap());
            }
        }
        acc = acc | v;
        prev = v;
        i = i + 1;
    }
    proof {
        lemma_or_u8(acc, 0, 0);
    }
    Some(acc)
}

/// The en-passant field decoded.
fn parse_ep_field(f: &str) -> (r: Option<Option<Square>>)
    ensures
        r == parse_ep(f@),
        match r {
            Some(ep) => ep_sq_ok(ep),
            None => true,
        },
{
    let n = f.unicode_len();
    if n == 1 && f.get_char(0) == '-' {
        proof {
            assert(f@ =~= seq!['-']);
        }
        return Some(None);
    }
    proof {
        if n == 1 {
            assert(f@[0] != '-');
        }
        assert(f@ != seq!['-']);
    }
    match Square::from_notation(f) {
        Some(sq) => Some(Some(sq)),
        None => None,
    }
}

/// A canonical decimal field decoded, when its value is at most `max`.
fn parse_clock_field(f: &str, max: u32) -> (r: Option<u32>)
    requires
        max <= 65535,
    ensures
        match r {
            Some(v) => parse_clock(f@, max as int) == Some(v as int),
            None => parse_clock(f@, max as int) is None,
        },
{
    let n = f.unicode_len();
    if n == 0 {
        return None;
    }
    if n > 1 && f.get_char(0) == '0' {
        return None;
    }
    let mut acc: u32 = 0;
    let mut i: usize = 0;
    while i < n
        invariant
            n == f@.len(),
            n >= 1,
            0 <= i <= n,
            max <= 65535,
            acc <= max,
            acc as int == dec_val(f@.subrange(0, i as int)),
            forall|j: int| 0 <= j < i ==> is_digit(#[trigger] f@[j]),
            n > 1 ==> f@[0] != '0',
        decreases n - i,
    {
        let c = f.get_char(i);
        if c < '0' || c > '9' {
            return None;
        }
        let d: u32 = (c as u32) - ('0' as u32);
        proof {
            assert(f@.subrange(0, i as int + 1).drop_last() =~= f@.subrange(0, i as int));
            assert(f@.subrange(0, i as int + 1).last() == f@[i as int]);
        }
        acc = acc * 10 + d;
        i = i + 1;
        if acc > max {
            proof {
                if dec_ok(f@) {
                    lemma_dec_monotone(f@, i as int);
                }
            }
            return None;
        }
    }
    proof {
        assert(f@.subrange(0, n as int) =~= f@);
    }
    Some(acc)
}

/// The fields named by index bounds into `s`.
pub open spec fn fields_of(s: Seq<char>, bounds: Seq<(usize, usize)>) -> Seq<Seq<char>> {
    Seq::new(bounds.len(), |k: int| s.subrange(bounds[k].0 as int, bounds[k].1 as int))
}

impl BitboardBoard {
    /// The piece-set index a placement letter stands for, if it is one.
    pub fn fen_char_to_bitboard_index(c: char) -> (r: Option<usize>)
        ensures
            match r {
                Some(u) => piece_idx_of_char(c) == Some(u as int),
                None => piece_idx_of_char(c) is None,
            },
    {
        if c == 'P' {
            Some(0)
        } else if c == 'N' {
            Some(1)
        } else if c == 'B' {
            Some(2)
        } else if c == 'R' {
            Some(3)
        } else if c == 'Q' {
            Some(4)
        } else if c == 'K' {
            Some(5)
        } else if c == 'p' {
            Some(6)
        } else if c == 'n' {
            Some(7)
        } else if c == 'b' {
            Some(8)
        } else if c == 'r' {
            Some(9)
        } else if c == 'q' {
            Some(10)
        } else if c == 'k' {
            Some(11)
        } else {
            None
        }
    }

    /// The record letter of a piece.
    pub fn piece_to_fen_char(piece: Piece) -> (c: char)
        ensures
            c == piece_char(piece),
    {
        match (piece.color, piece.kind) {
            (Color::White, PieceKind::Pawn) => 'P',
            (Color::White, PieceKind::Knight) => 'N',
            (Color::White, PieceKind::Bishop) => 'B',
            (Color::White, PieceKind::Rook) => 'R',
            (Color::White, PieceKind::Queen) => 'Q',
            (Color::White, PieceKind::King) => 'K',
            (Color::Black, PieceKind::Pawn) => 'p',
            (Color::Black, PieceKind::Knight) => 'n',
            (Color::Black, PieceKind::Bishop) => 'b',
            (Color::Black, PieceKind::Rook) => 'r',
            (Color::Black, PieceKind::Queen) => 'q',
            (Color::Black, PieceKind::King) => 'k',
        }
    }

    /// Imports a six-field record. On success the whole position is reset
    /// to the described one, with an empty undo history; a malformed
    /// record is rejected with the position left untouched.
    pub fn load_fen(&mut self, fen: &str) -> (r: bool)
        requires
            board_ok(old(self)@),
        ensures
            r == (parse_fen(fen@) is Some),
            r ==> final(self)@ == parse_fen(fen@).unwrap(),
            !r ==> final(self)@ == old(self)@,
            board_ok(final(self)@),
    {
        let ghost s = fen@;
        let n = fen.unicode_len();
        let mut bounds: Vec<(usize, usize)> = Vec::new();
        let mut start: usize = 0;
        let mut i: usize = 0;
        proof {
            assert(s.subrange(0, n as int) =~= s);
        }
        while i < n
            invariant
                s == fen@,
                n == s.len(),
                0 <= start <= i <= n,
                forall|k: int|
                    0 <= k < bounds@.len() ==> 0 <= (#[trigger] bounds@[k]).0
                        <= bounds@[k].1 <= n,
                split_sp(s) == fields_of(s, bounds@) + seq![
                    s.subrange(start as int, i as int) + split_sp(s.subrange(i as int, n as int))[0],
                ] + split_sp(s.subrange(i as int, n as int)).drop_first(),
            decreases n - i,
        {
            let c = fen.get_char(i);
            proof {
                lemma_split_len(s.subrange(i as int + 1, n as int));
                assert(s.subrange(i as int, n as int).drop_first() =~= s.subrange(
                    i as int + 1,
                    n as int,
                ));
                assert(s.subrange(i as int, n as int)[0] == c);
            }
            if c == ' ' {
                let ghost old_bounds = bounds@;
                bounds.push((start, i));
                start = i + 1;
                proof {
                    assert(fields_of(s, bounds@) =~= fields_of(s, old_bounds) + seq![
                        s.subrange(bounds@[bounds@.len() - 1].0 as int, bounds@[bounds@.len() - 1].1 as int),
                    ]);
                    assert(s.subrange(start as int, i as int + 1) =~= Seq::<char>::empty());
                    assert(split_sp(s) =~= fields_of(s, bounds@) + seq![
                        s.subrange(start as int, i as int + 1) + split_sp(
                            s.subrange(i as int + 1, n as int),
                        )[0],
                    ] + split_sp(s.subrange(i as int + 1, n as int)).drop_first());
                }
            } else {
                proof {
                    assert(s.subrange(start as int, i as int) + (seq![c] + split_sp(
                        s.subrange(i as int + 1, n as int),
                    )[0]) =~= s.subrange(start as int, i as int + 1) + split_sp(
                        s.subrange(i as int + 1, n as int),
                    )[0]);
                    assert(split_sp(s) =~= fields_of(s, bounds@) + seq![
                        s.subrange(start as int, i as int + 1) + split_sp(
                            s.subrange(i as int + 1, n as int),
                        )[0],
                    ] + split_sp(s.subrange(i as int + 1, n as int)).drop_first());
                }
            }
            i = i + 1;
        }
        proof {
            assert(s.subrange(n as int, n as int) =~= Seq::<char>::empty());
            assert(split_sp(Seq::<char>::empty()) =~= seq![Seq::<char>::empty()]);
            assert(split_sp(s) =~= fields_of(s, bounds@) + seq![s.subrange(start as int, n as int)]);
        }
        if bounds.len() != 5 {
            return false;
        }
        let (b0, e0) = (bounds[0].0, bounds[0].1);
        let (b1, e1) = (bounds[1].0, bounds[1].1);
        let (b2, e2) = (bounds[2].0, bounds[2].1);
        let (b3, e3) = (bounds[3].0, bounds[3].1);
        let (b4, e4) = (bounds[4].0, bounds[4].1);
        let f0 = fen.substring_char(b0, e0);
        let f1 = fen.substring_char(b1, e1);
        let f2 = fen.substring_char(b2, e2);
        let f3 = fen.substring_char(b3, e3);
        let f4 = fen.substring_char(b4, e4);
        let f5 = fen.substring_char(start, n);
        proof {
            assert(split_sp(s).len() == 6);
            assert(f0@ == split_sp(s)[0]);
            assert(f1@ == split_sp(s)[1]);
            assert(f2@ == split_sp(s)[2]);
            assert(f3@ == split_sp(s)[3]);
            assert(f4@ == split_sp(s)[4]);
            assert(f5@ == split_sp(s)[5]);
        }
        let bbs = match parse_placement_field(f0) {
            Some(v) => v,
            None => {
                return false;
            },
        };
        let side = match parse_side_field(f1) {
            Some(v) => v,
            None => {
                return false;
            },
        };
        let rights = match parse_castle_field(f2) {
            Some(v) => v,
            None => {
                return false;
            },
        };
        let ep = match parse_ep_field(f3) {
            Some(v) => v,
            None => {
                return false;
            },
        };
        let halfmove = match parse_clock_field(f4, 255) {
            Some(v) => v,
            None => {
                return false;
            },
        };
        let fullmove = match parse_clock_field(f5, 65535) {
            Some(v) => v,
            None => {
                return false;
            },
        };
        self.set_parsed(bbs, side, rights, ep, halfmove as u8, fullmove as u16);
        true
    }
}

/// No space occurs in `a`.
pub open spec fn no_space(a: Seq<char>) -> bool {
    forall|j: int| 0 <= j < a.len() ==> a[j] != ' '
}

/// A space-free prefix splits off as one whole field.
proof fn lemma_split_prefix(a: Seq<char>, b: Seq<char>)
    requires
        no_space(a),
    ensures
        split_sp(a + seq![' '] + b) =~~= seq![a] + split_sp(b),
    decreases a.len(),
{
    let s = a + seq![' '] + b;
    if a.len() == 0 {
        assert(s =~= seq![' '] + b);
        assert(s[0] == ' ');
        assert(s.drop_first() =~= b);
        assert(split_sp(s) =~~= seq![a] + split_sp(b));
    } else {
        assert(s[0] == a[0]);
        assert(s.drop_first() =~= a.drop_first() + seq![' '] + b);
        assert(no_space(a.drop_first()));
        lemma_split_prefix(a.drop_first(), b);
        lemma_split_len(b);
        assert(split_sp(s) =~~= seq![seq![s[0]] + split_sp(s.drop_first())[0]] + split_sp(
            s.drop_first(),
        ).drop_first());
        assert(seq![s[0]] + a.drop_first() =~= a);
        assert(split_sp(s) =~~= seq![a] + split_sp(b));
    }
}

/// A space-free string is one whole field.
proof fn lemma_split_whole(a: Seq<char>)
    requires
        no_space(a),
    ensures
        split_sp(a) =~~= seq![a],
    decreases a.len(),
{
    if a.len() == 0 {
        assert(split_sp(a) =~~= seq![a]);
    } else {
        assert(no_space(a.drop_first()));
        lemma_split_whole(a.drop_first());
        assert(seq![a[0]] + a.drop_first() =~= a);
        assert(split_sp(a) =~~= seq![a]);
    }
}

/// The side letter reads back as the side.
proof fn lemma_side_round_trip(c: Color)
    ensures
        parse_side(seq![side_char(c)]) == Some(c),
        no_space(seq![side_char(c)]),
{
    match c {
        Color::White => {
            assert(seq![side_char(c)] =~= seq!['w']);
        },
        Color::Black => {
            assert(seq![side_char(c)] =~= seq!['b']);
            assert(seq!['b'] != seq!['w']) by {
                assert(seq!['b'][0] == 'b');
            }
        },
    }
}

/// The en-passant field reads back as the target.
proof fn lemma_ep_round_trip(ep: Option<Square>)
    requires
        ep_sq_ok(ep),
    ensures
        parse_ep(ep_chars(ep)) == Some(ep),
        no_space(ep_chars(ep)),
{
    match ep {
        None => {
            assert(ep_chars(ep) =~= seq!['-']);
        },
        Some(sq) => {
            let s = crate::types::spec_notation(sq.0 as int);
            assert(s.len() == 2);
            assert(s[0] == ((('a' as u8) + (sq.0 as int % 8) as u8) as char));
            assert(s[1] == ((('1' as u8) + (sq.0 as int / 8) as u8) as char));
            assert('a' <= s[0] <= 'h' && '1' <= s[1] <= '8');
            assert(s != seq!['-'] && s[0] != ' ' && s[1] != ' ');
            assert(crate::types::spec_square_of(s) == Some(sq)) by {
                assert((((s[1] as u8) - ('1' as u8)) * 8 + ((s[0] as u8) - ('a' as u8))) as u8
                    == sq.0);
            }
            assert forall|j: int| 0 <= j < s.len() implies s[j] != ' ' by {
                if j == 0 {
                } else {
                    assert(j == 1);
                }
            }
        },
    }
}

/// A decimal field reads back as its number.
proof fn lemma_dec_round_trip(n: int)
    requires
        0 <= n <= 65535,
    ensures
        dec_ok(dec_chars(n)),
        dec_val(dec_chars(n)) == n,
        n >= 1 ==> dec_chars(n)[0] != '0',
        no_space(dec_chars(n)),
    decreases n,
{
    if n < 10 {
        assert(dec_chars(n) =~= seq![digit_char(n)]);
        assert(is_digit(digit_char(n)));
        assert(dec_chars(n).drop_last() =~= Seq::<char>::empty());
        assert(dec_val(Seq::<char>::empty()) == 0);
        assert(dec_chars(n).last() == digit_char(n));
        assert(dec_val(dec_chars(n)) == dec_val(dec_chars(n).drop_last()) * 10 + ((dec_chars(
            n,
        ).last() as int) - ('0' as int)));
        assert(dec_val(dec_chars(n)) == (digit_char(n) as int) - ('0' as int));
        assert(n >= 1 ==> digit_char(n) != '0');
        assert(digit_char(n) != ' ');
    } else {
        lemma_dec_round_trip(n / 10);
        let a = dec_chars(n / 10);
        let w = dec_chars(n);
        assert(w =~= a + seq![digit_char(n % 10)]);
        assert(w.drop_last() =~= a);
        assert(w.last() == digit_char(n % 10));
        assert(is_digit(digit_char(n % 10)));
        assert(dec_val(w) == dec_val(a) * 10 + ((digit_char(n % 10) as int) - ('0' as int)));
        assert(dec_val(w) == (n / 10) * 10 + (n % 10));
        assert(w[0] == a[0]);
        assert forall|j: int| 0 <= j < w.len() implies is_digit(#[trigger] w[j]) by {
            if j < a.len() {
                assert(w[j] == a[j]);
            }
        }
        assert(digit_char(n % 10) != ' ');
        assert forall|j: int| 0 <= j < w.len() implies w[j] != ' ' by {
            if j < a.len() {
                assert(w[j] == a[j]);
            }
        }
    }
}

/// The bitwise-or table of the castling flag values.
proof fn lemma_or_table()
    ensures
        (0u8 | 0u8) == 0u8 && (0u8 | 1u8) == 1u8 && (0u8 | 2u8) == 2u8 && (0u8 | 3u8) == 3u8 && (0u8 | 4u8) == 4u8 && (0u8 | 5u8) == 5u8 && (0u8 | 6u8) == 6u8 && (0u8 | 7u8) == 7u8 && (0u8 | 8u8) == 8u8 && (0u8 | 9u8) == 9u8 && (0u8 | 10u8) == 10u8 && (0u8 | 11u8) == 11u8 && (0u8 | 12u8) == 12u8 && (0u8 | 13u8) == 13u8 && (0u8 | 14u8) == 14u8 && (0u8 | 15u8) == 15u8 && (1u8 | 0u8) == 1u8 && (1u8 | 1u8) == 1u8 && (1u8 | 2u8) == 3u8 && (1u8 | 3u8) == 3u8 && (1u8 | 4u8) == 5u8 && (1u8 | 5u8) == 5u8 && (1u8 | 6u8) == 7u8 && (1u8 | 7u8) == 7u8 && (1u8 | 8u8) == 9u8 && (1u8 | 9u8) == 9u8 && (1u8 | 10u8) == 11u8 && (1u8 | 11u8) == 11u8 && (1u8 | 12u8) == 13u8 && (1u8 | 13u8) == 13u8 && (1u8 | 14u8) == 15u8 && (1u8 | 15u8) == 15u8 && (2u8 | 0u8) == 2u8 && (2u8 | 1u8) == 3u8 && (2u8 | 2u8) == 2u8 && (2u8 | 3u8) == 3u8 && (2u8 | 4u8) == 6u8 && (2u8 | 5u8) == 7u8 && (2u8 | 6u8) == 6u8 && (2u8 | 7u8) == 7u8 && (2u8 | 8u8) == 10u8 && (2u8 | 9u8) == 11u8 && (2u8 | 10u8) == 10u8 && (2u8 | 11u8) == 11u8 && (2u8 | 12u8) == 14u8 && (2u8 | 13u8) == 15u8 && (2u8 | 14u8) == 14u8 && (2u8 | 15u8) == 15u8 && (3u8 | 0u8) == 3u8 && (3u8 | 1u8) == 3u8 && (3u8 | 2u8) == 3u8 && (3u8 | 4u8) == 7u8 && (3u8 | 8u8) == 11u8 && (4u8 | 0u8) == 4u8 && (4u8 | 1u8) == 5u8 && (4u8 | 2u8) == 6u8 && (4u8 | 3u8) == 7u8 && (4u8 | 4u8) == 4u8 && (4u8 | 5u8) == 5u8 && (4u8 | 6u8) == 6u8 && (4u8 | 7u8) == 7u8 && (4u8 | 8u8) == 12u8 && (4u8 | 9u8) == 13u8 && (4u8 | 10u8) == 14u8 && (4u8 | 11u8) == 15u8 && (4u8 | 12u8) == 12u8 && (4u8 | 13u8) == 13u8 && (4u8 | 14u8) == 14u8 && (4u8 | 15u8) == 15u8 && (5u8 | 0u8) == 5u8 && (5u8 | 1u8) == 5u8 && (5u8 | 2u8) == 7u8 && (5u8 | 4u8) == 5u8 && (5u8 | 8u8) == 13u8 && (6u8 | 0u8) == 6u8 && (6u8 | 1u8) == 7u8 && (6u8 | 2u8) == 6u8 && (6u8 | 4u8) == 6u8 && (6u8 | 8u8) == 14u8 && (7u8 | 0u8) == 7u8 && (7u8 | 1u8) == 7u8 && (7u8 | 2u8) == 7u8 && (7u8 | 4u8) == 7u8 && (7u8 | 8u8) == 15u8 && (8u8 | 0u8) == 8u8 && (8u8 | 1u8) == 9u8 && (8u8 | 2u8) == 10u8 && (8u8 | 3u8) == 11u8 && (8u8 | 4u8) == 12u8 && (8u8 | 5u8) == 13u8 && (8u8 | 6u8) == 14u8 && (8u8 | 7u8) == 15u8 && (8u8 | 8u8) == 8u8 && (8u8 | 9u8) == 9u8 && (8u8 | 10u8) == 10u8 && (8u8 | 11u8) == 11u8 && (8u8 | 12u8) == 12u8 && (8u8 | 13u8) == 13u8 && (8u8 | 14u8) == 14u8 && (8u8 | 15u8) == 15u8 && (9u8 | 0u8) == 9u8 && (9u8 | 1u8) == 9u8 && (9u8 | 2u8) == 11u8 && (9u8 | 4u8) == 13u8 && (9u8 | 8u8) == 9u8 && (10u8 | 0u8) == 10u8 && (10u8 | 1u8) == 11u8 && (10u8 | 2u8) == 10u8 && (10u8 | 4u8) == 14u8 && (10u8 | 8u8) == 10u8 && (11u8 | 0u8) == 11u8 && (11u8 | 1u8) == 11u8 && (11u8 | 2u8) == 11u8 && (11u8 | 4u8) == 15u8 && (11u8 | 8u8) == 11u8 && (12u8 | 0u8) == 12u8 && (12u8 | 1u8) == 13u8 && (12u8 | 2u8) == 14u8 && (12u8 | 4u8) == 12u8 && (12u8 | 8u8) == 12u8 && (13u8 | 0u8) == 13u8 && (13u8 | 1u8) == 13u8 && (13u8 | 2u8) == 15u8 && (13u8 | 4u8) == 13u8 && (13u8 | 8u8) == 13u8 && (14u8 | 0u8) == 14u8 && (14u8 | 1u8) == 15u8 && (14u8 | 2u8) == 14u8 && (14u8 | 4u8) == 14u8 && (14u8 | 8u8) == 14u8 && (15u8 | 0u8) == 15u8 && (15u8 | 1u8) == 15u8 && (15u8 | 2u8) == 15u8 && (15u8 | 4u8) == 15u8 && (15u8 | 8u8) == 15u8,
{
    assert((0u8 | 0u8) == 0u8 && (0u8 | 1u8) == 1u8 && (0u8 | 2u8) == 2u8 && (0u8 | 3u8) == 3u8 && (0u8 | 4u8) == 4u8 && (0u8 | 5u8) == 5u8 && (0u8 | 6u8) == 6u8 && (0u8 | 7u8) == 7u8 && (0u8 | 8u8) == 8u8 && (0u8 | 9u8) == 9u8 && (0u8 | 10u8) == 10u8 && (0u8 | 11u8) == 11u8 && (0u8 | 12u8) == 12u8 && (0u8 | 13u8) == 13u8 && (0u8 | 14u8) == 14u8 && (0u8 | 15u8) == 15u8 && (1u8 | 0u8) == 1u8 && (1u8 | 1u8) == 1u8 && (1u8 | 2u8) == 3u8 && (1u8 | 3u8) == 3u8 && (1u8 | 4u8) == 5u8 && (1u8 | 5u8) == 5u8 && (1u8 | 6u8) == 7u8 && (1u8 | 7u8) == 7u8 && (1u8 | 8u8) == 9u8 && (1u8 | 9u8) == 9u8 && (1u8 | 10u8) == 11u8 && (1u8 | 11u8) == 11u8 && (1u8 | 12u8) == 13u8 && (1u8 | 13u8) == 13u8 && (1u8 | 14u8) == 15u8 && (1u8 | 15u8) == 15u8 && (2u8 | 0u8) == 2u8 && (2u8 | 1u8) == 3u8 && (2u8 | 2u8) == 2u8 && (2u8 | 3u8) == 3u8 && (2u8 | 4u8) == 6u8 && (2u8 | 5u8) == 7u8 && (2u8 | 6u8) == 6u8 && (2u8 | 7u8) == 7u8 && (2u8 | 8u8) == 10u8 && (2u8 | 9u8) == 11u8 && (2u8 | 10u8) == 10u8 && (2u8 | 11u8) == 11u8 && (2u8 | 12u8) == 14u8 && (2u8 | 13u8) == 15u8 && (2u8 | 14u8) == 14u8 && (2u8 | 15u8) == 15u8 && (3u8 | 0u8) == 3u8 && (3u8 | 1u8) == 3u8 && (3u8 | 2u8) == 3u8 && (3u8 | 4u8) == 7u8 && (3u8 | 8u8) == 11u8 && (4u8 | 0u8) == 4u8 && (4u8 | 1u8) == 5u8 && (4u8 | 2u8) == 6u8 && (4u8 | 3u8) == 7u8 && (4u8 | 4u8) == 4u8 && (4u8 | 5u8) == 5u8 && (4u8 | 6u8) == 6u8 && (4u8 | 7u8) == 7u8 && (4u8 | 8u8) == 12u8 && (4u8 | 9u8) == 13u8 && (4u8 | 10u8) == 14u8 && (4u8 | 11u8) == 15u8 && (4u8 | 12u8) == 12u8 && (4u8 | 13u8) == 13u8 && (4u8 | 14u8) == 14u8 && (4u8 | 15u8) == 15u8 && (5u8 | 0u8) == 5u8 && (5u8 | 1u8) == 5u8 && (5u8 | 2u8) == 7u8 && (5u8 | 4u8) == 5u8 && (5u8 | 8u8) == 13u8 && (6u8 | 0u8) == 6u8 && (6u8 | 1u8) == 7u8 && (6u8 | 2u8) == 6u8 && (6u8 | 4u8) == 6u8 && (6u8 | 8u8) == 14u8 && (7u8 | 0u8) == 7u8 && (7u8 | 1u8) == 7u8 && (7u8 | 2u8) == 7u8 && (7u8 | 4u8) == 7u8 && (7u8 | 8u8) == 15u8 && (8u8 | 0u8) == 8u8 && (8u8 | 1u8) == 9u8 && (8u8 | 2u8) == 10u8 && (8u8 | 3u8) == 11u8 && (8u8 | 4u8) == 12u8 && (8u8 | 5u8) == 13u8 && (8u8 | 6u8) == 14u8 && (8u8 | 7u8) == 15u8 && (8u8 | 8u8) == 8u8 && (8u8 | 9u8) == 9u8 && (8u8 | 10u8) == 10u8 && (8u8 | 11u8) == 11u8 && (8u8 | 12u8) == 12u8 && (8u8 | 13u8) == 13u8 && (8u8 | 14u8) == 14u8 && (8u8 | 15u8) == 15u8 && (9u8 | 0u8) == 9u8 && (9u8 | 1u8) == 9u8 && (9u8 | 2u8) == 11u8 && (9u8 | 4u8) == 13u8 && (9u8 | 8u8) == 9u8 && (10u8 | 0u8) == 10u8 && (10u8 | 1u8) == 11u8 && (10u8 | 2u8) == 10u8 && (10u8 | 4u8) == 14u8 && (10u8 | 8u8) == 10u8 && (11u8 | 0u8) == 11u8 && (11u8 | 1u8) == 11u8 && (11u8 | 2u8) == 11u8 && (11u8 | 4u8) == 15u8 && (11u8 | 8u8) == 11u8 && (12u8 | 0u8) == 12u8 && (12u8 | 1u8) == 13u8 && (12u8 | 2u8) == 14u8 && (12u8 | 4u8) == 12u8 && (12u8 | 8u8) == 12u8 && (13u8 | 0u8) == 13u8 && (13u8 | 1u8) == 13u8 && (13u8 | 2u8) == 15u8 && (13u8 | 4u8) == 13u8 && (13u8 | 8u8) == 13u8 && (14u8 | 0u8) == 14u8 && (14u8 | 1u8) == 15u8 && (14u8 | 2u8) == 14u8 && (14u8 | 4u8) == 14u8 && (14u8 | 8u8) == 14u8 && (15u8 | 0u8) == 15u8 && (15u8 | 1u8) == 15u8 && (15u8 | 2u8) == 15u8 && (15u8 | 4u8) == 15u8 && (15u8 | 8u8) == 15u8) by (bit_vector);
}

/// The castling field reads back as the rights flags.
proof fn lemma_castle_round_trip(r: u8)
    requires
        r < 16,
    ensures
        parse_castle(castle_chars(r)) == Some(r),
        no_space(castle_chars(r)),
{
    let wk = r & CASTLE_WHITE_KINGSIDE != 0;
    let wq = r & CASTLE_WHITE_QUEENSIDE != 0;
    let bk = r & CASTLE_BLACK_KINGSIDE != 0;
    let bq = r & CASTLE_BLACK_QUEENSIDE != 0;
    let s = castle_chars(r);
    lemma_or_table();
    assert(((if wk {
        1u8
    } else {
        0u8
    }) | (if wq {
        2u8
    } else {
        0u8
    }) | (if bk {
        4u8
    } else {
        0u8
    }) | (if bq {
        8u8
    } else {
        0u8
    })) == r) by (bit_vector)
        requires
            r < 16,
            wk == (r & 1 != 0),
            wq == (r & 2 != 0),
            bk == (r & 4 != 0),
            bq == (r & 8 != 0),
    ;
    if !wk && !wq && !bk && !bq {
        assert(s =~= seq!['-']);
    } else {
        lemma_castle_tail(r, s);
    }
}

/// Step through the castling letters, checking the greedy flag order.
#[verifier::spinoff_prover]
proof fn lemma_castle_tail(r: u8, s: Seq<char>)
    requires
        r < 16,
        r != 0,
        s == castle_chars(r),
    ensures
        parse_castle(s) == Some(r),
        no_space(s),
{
    let wk = r & CASTLE_WHITE_KINGSIDE != 0;
    let wq = r & CASTLE_WHITE_QUEENSIDE != 0;
    let bk = r & CASTLE_BLACK_KINGSIDE != 0;
    let bq = r & CASTLE_BLACK_QUEENSIDE != 0;
    lemma_or_table();
    assert(((if wk {
        1u8
    } else {
        0u8
    }) | (if wq {
        2u8
    } else {
        0u8
    }) | (if bk {
        4u8
    } else {
        0u8
    }) | (if bq {
        8u8
    } else {
        0u8
    })) == r) by (bit_vector)
        requires
            r < 16,
            wk == (r & 1 != 0),
            wq == (r & 2 != 0),
            bk == (r & 4 != 0),
            bq == (r & 8 != 0),
    ;
    if wk {
        if wq {
            if bk {
                if bq {
                    assert(s =~= seq!['K', 'Q', 'k', 'q']);
                    assert(castle_rec(s, 4, 8u8) == Some(0u8));
                    assert(castle_flag_of(s[3]) == 8u8);
                    assert(castle_rec(s, 3, 4u8) == Some(8u8));
                    assert(castle_flag_of(s[2]) == 4u8);
                    assert(castle_rec(s, 2, 2u8) == Some(12u8));
                    assert(castle_flag_of(s[1]) == 2u8);
                    assert(castle_rec(s, 1, 1u8) == Some(14u8));
                    assert(castle_flag_of(s[0]) == 1u8);
                    assert(castle_rec(s, 0, 0u8) == Some(15u8));
                    assert(s[0] != '-');
                    assert(s != seq!['-']);
                    assert(parse_castle(s) == Some(15u8));
                } else {
                    assert(s =~= seq!['K', 'Q', 'k']);
                    assert(castle_rec(s, 3, 4u8) == Some(0u8));
                    assert(castle_flag_of(s[2]) == 4u8);
                    assert(castle_rec(s, 2, 2u8) == Some(4u8));
                    assert(castle_flag_of(s[1]) == 2u8);
                    assert(castle_rec(s, 1, 1u8) == Some(6u8));
                    assert(castle_flag_of(s[0]) == 1u8);
                    assert(castle_rec(s, 0, 0u8) == Some(7u8));
                    assert(s[0] != '-');
                    assert(s != seq!['-']);
                    assert(parse_castle(s) == Some(7u8));
                }
            } else {
                if bq {
                    assert(s =~= seq!['K', 'Q', 'q']);
                    assert(castle_rec(s, 3, 8u8) == Some(0u8));
                    assert(castle_flag_of(s[2]) == 8u8);
                    assert(castle_rec(s, 2, 2u8) == Some(8u8));
                    assert(castle_flag_of(s[1]) == 2u8);
                    assert(castle_rec(s, 1, 1u8) == Some(10u8));
                    assert(castle_flag_of(s[0]) == 1u8);
                    assert(castle_rec(s, 0, 0u8) == Some(11u8));
                    assert(s[0] != '-');
                    assert(s != seq!['-']);
                    assert(parse_castle(s) == Some(11u8));
                } else {
                    assert(s =~= seq!['K', 'Q']);
                    assert(castle_rec(s, 2, 2u8) == Some(0u8));
                    assert(castle_flag_of(s[1]) == 2u8);
                    assert(castle_rec(s, 1, 1u8) == Some(2u8));
                    assert(castle_flag_of(s[0]) == 1u8);
                    assert(castle_rec(s, 0, 0u8) == Some(3u8));
                    assert(s[0] != '-');
                    assert(s != seq!['-']);
                    assert(parse_castle(s) == Some(3u8));
                }
            }
        } else {
            if bk {
                if bq {
                    assert(s =~= seq!['K', 'k', 'q']);
                    assert(castle_rec(s, 3, 8u8) == Some(0u8));
                    assert(castle_flag_of(s[2]) == 8u8);
                    assert(castle_rec(s, 2, 4u8) == Some(8u8));
                    assert(castle_flag_of(s[1]) == 4u8);
                    assert(castle_rec(s, 1, 1u8) == Some(12u8));
                    assert(castle_flag_of(s[0]) == 1u8);
                    assert(castle_rec(s, 0, 0u8) == Some(13u8));
                    assert(s[0] != '-');
                    assert(s != seq!['-']);
                    assert(parse_castle(s) == Some(13u8));
                } else {
                    assert(s =~= seq!['K', 'k']);
                    assert(castle_rec(s, 2, 4u8) == Some(0u8));
                    assert(castle_flag_of(s[1]) == 4u8);
                    assert(castle_rec(s, 1, 1u8) == Some(4u8));
                    assert(castle_flag_of(s[0]) == 1u8);
                    assert(castle_rec(s, 0, 0u8) == Some(5u8));
                    assert(s[0] != '-');
                    assert(s != seq!['-']);
                    assert(parse_castle(s) == Some(5u8));
                }
            } else {
                if bq {
                    assert(s =~= seq!['K', 'q']);
                    assert(castle_rec(s, 2, 8u8) == Some(0u8));
                    assert(castle_flag_of(s[1]) == 8u8);
                    assert(castle_rec(s, 1, 1u8) == Some(8u8));
                    assert(castle_flag_of(s[0]) == 1u8);
                    assert(castle_rec(s, 0, 0u8) == Some(9u8));
                    assert(s[0] != '-');
                    assert(s != seq!['-']);
                    assert(parse_castle(s) == Some(9u8));
                } else {
                    assert(s =~= seq!['K']);
                    assert(castle_rec(s, 1, 1u8) == Some(0u8));
                    assert(castle_flag_of(s[0]) == 1u8);
                    assert(castle_rec(s, 0, 0u8) == Some(1u8));
                    assert(s[0] != '-');
                    assert(s != seq!['-']);
                    assert(parse_castle(s) == Some(1u8));
                }
            }
        }
    } else {
        if wq {
            if bk {
                if bq {
                    assert(s =~= seq!['Q', 'k', 'q']);
                    assert(castle_rec(s, 3, 8u8) == Some(0u8));
                    assert(castle_flag_of(s[2]) == 8u8);
                    assert(castle_rec(s, 2, 4u8) == Some(8u8));
                    assert(castle_flag_of(s[1]) == 4u8);
                    assert(castle_rec(s, 1, 2u8) == Some(12u8));
                    assert(castle_flag_of(s[0]) == 2u8);
                    assert(castle_rec(s, 0, 0u8) == Some(14u8));
                    assert(s[0] != '-');
                    assert(s != seq!['-']);
                    assert(parse_castle(s) == Some(14u8));
                } else {
                    assert(s =~= seq!['Q', 'k']);
                    assert(castle_rec(s, 2, 4u8) == Some(0u8));
                    assert(castle_flag_of(s[1]) == 4u8);
                    assert(castle_rec(s, 1, 2u8) == Some(4u8));
                    assert(castle_flag_of(s[0]) == 2u8);
                    assert(castle_rec(s, 0, 0u8) == Some(6u8));
                    assert(s[0] != '-');
                    assert(s != seq!['-']);
                    assert(parse_castle(s) == Some(6u8));
                }
            } else {
                if bq {
                    assert(s =~= seq!['Q', 'q']);
                    assert(castle_rec(s, 2, 8u8) == Some(0u8));
                    assert(castle_flag_of(s[1]) == 8u8);
                    assert(castle_rec(s, 1, 2u8) == Some(8u8));
                    assert(castle_flag_of(s[0]) == 2u8);
                    assert(castle_rec(s, 0, 0u8) == Some(10u8));
                    assert(s[0] != '-');
                    assert(s != seq!['-']);
                    assert(parse_castle(s) == Some(10u8));
                } else {
                    assert(s =~= seq!['Q']);
                    assert(castle_rec(s, 1, 2u8) == Some(0u8));
                    assert(castle_flag_of(s[0]) == 2u8);
                    assert(castle_rec(s, 0, 0u8) == Some(2u8));
                    assert(s[0] != '-');
                    assert(s != seq!['-']);
                    assert(parse_castle(s) == Some(2u8));
                }
            }
        } else {
            if bk {
                if bq {
                    assert(s =~= seq!['k', 'q']);
                    assert(castle_rec(s, 2, 8u8) == Some(0u8));
                    assert(castle_flag_of(s[1]) == 8u8);
                    assert(castle_rec(s, 1, 4u8) == Some(8u8));
                    assert(castle_flag_of(s[0]) == 4u8);
                    assert(castle_rec(s, 0, 0u8) == Some(12u8));
                    assert(s[0] != '-');
                    assert(s != seq!['-']);
                    assert(parse_castle(s) == Some(12u8));
                } else {
                    assert(s =~= seq!['k']);
                    assert(castle_rec(s, 1, 4u8) == Some(0u8));
                    assert(castle_flag_of(s[0]) == 4u8);
                    assert(castle_rec(s, 0, 0u8) == Some(4u8));
                    assert(s[0] != '-');
                    assert(s != seq!['-']);
                    assert(parse_castle(s) == Some(4u8));
                }
            } else {
                if bq {
                    assert(s =~= seq!['q']);
                    assert(castle_rec(s, 1, 8u8) == Some(0u8));
                    assert(castle_flag_of(s[0]) == 8u8);
                    assert(castle_rec(s, 0, 0u8) == Some(8u8));
                    assert(s[0] != '-');
                    assert(s != seq!['-']);
                    assert(parse_castle(s) == Some(8u8));
                } else {
                    assert(false);
                }
            }
        }
    }

}

/// The record letter of a piece, as text.
fn piece_str(p: Piece) -> (r: &'static str)
    ensures
        r@.len() == 1,
        r@[0] == piece_char(p),
{
    proof {
        reveal_strlit("P");
        reveal_strlit("N");
        reveal_strlit("B");
        reveal_strlit("R");
        reveal_strlit("Q");
        reveal_strlit("K");
        reveal_strlit("p");
        reveal_strlit("n");
        reveal_strlit("b");
        reveal_strlit("r");
        reveal_strlit("q");
        reveal_strlit("k");
    }
    match (p.color, p.kind) {
        (Color::White, PieceKind::Pawn) => "P",
        (Color::White, PieceKind::Knight) => "N",
        (Color::White, PieceKind::Bishop) => "B",
        (Color::White, PieceKind::Rook) => "R",
        (Color::White, PieceKind::Queen) => "Q",
        (Color::White, PieceKind::King) => "K",
        (Color::Black, PieceKind::Pawn) => "p",
        (Color::Black, PieceKind::Knight) => "n",
        (Color::Black, PieceKind::Bishop) => "b",
        (Color::Black, PieceKind::Rook) => "r",
        (Color::Black, PieceKind::Queen) => "q",
        (Color::Black, PieceKind::King) => "k",
    }
}

/// One decimal digit, as text.
fn digit_str(d: u8) -> (r: &'static str)
    requires
        d < 10,
    ensures
        r@.len() == 1,
        r@[0] == digit_char(d as int),
{
    proof {
        reveal_strlit("0");
        reveal_strlit("1");
        reveal_strlit("2");
        reveal_strlit("3");
        reveal_strlit("4");
        reveal_strlit("5");
        reveal_strlit("6");
        reveal_strlit("7");
        reveal_strlit("8");
        reveal_strlit("9");
    }
    match d {
        0 => "0",
        1 => "1",
        2 => "2",
        3 => "3",
        4 => "4",
        5 => "5",
        6 => "6",
        7 => "7",
        8 => "8",
        _ => "9",
    }
}

/// Appends the decimal text of `n`.
fn append_dec(out: &mut String, n: u16)
    ensures
        final(out)@ == old(out)@ + dec_chars(n as int),
{
    let mut digits: Vec<u8> = Vec::new();
    let mut cur: u16 = n;
    digits.push((cur % 10) as u8);
    cur = cur / 10;
    while cur > 0
        invariant
            forall|j: int| 0 <= j < digits@.len() ==> #[trigger] digits@[j] < 10,
            digits@.len() >= 1,
            dec_chars(n as int) == (if cur == 0 {
                Seq::<char>::empty()
            } else {
                dec_chars(cur as int)
            }) + rev_digit_chars(digits@),
        decreases cur,
    {
        digits.push((cur % 10) as u8);
        let ghost before = digits@;
        proof {
            assert(rev_digit_chars(digits@) =~= seq![digit_char((cur % 10) as int)]
                + rev_digit_chars(digits@.drop_last()));
            if cur / 10 == 0 {
                assert(dec_chars(cur as int) == seq![digit_char(cur as int % 10)]);
            }
        }
        cur = cur / 10;
    }
    let mut k: usize = digits.len();
    while k > 0
        invariant
            k <= digits@.len(),
            forall|j: int| 0 <= j < digits@.len() ==> #[trigger] digits@[j] < 10,
            out@ == old(out)@ + rev_digit_chars(digits@.subrange(k as int, digits@.len() as int)),
            dec_chars(n as int) == rev_digit_chars(digits@),
        decreases k,
    {
        k = k - 1;
        out.append(digit_str(digits[k]));
        proof {
            assert(rev_digit_chars(digits@.subrange(k as int, digits@.len() as int)) =~= rev_digit_chars(
                digits@.subrange(k + 1, digits@.len() as int),
            ) + seq![digit_char(digits@[k as int] as int)]);
            assert(out@ =~= old(out)@ + rev_digit_chars(
                digits@.subrange(k as int, digits@.len() as int),
            ));
        }
    }
    proof {
        assert(digits@.subrange(0, digits@.len() as int) =~= digits@);
    }
}

/// The digit characters of `ds`, last digit first.
pub open spec fn rev_digit_chars(ds: Seq<u8>) -> Seq<char> {
    Seq::new(ds.len(), |j: int| digit_char(ds[ds.len() - 1 - j] as int))
}

impl BitboardBoard {
    /// Exports this position as its canonical six-field record.
    pub fn to_fen(&self) -> (r: String)
        requires
            board_ok(self@),
        ensures
            r@ == fen_chars(self@),
    {
        let ghost m = self@;
        let mut fen = String::new();
        let mut ri: u8 = 0;
        while ri < 8
            invariant
                board_ok(self@),
                m == self@,
                ri <= 8,
                fen@ + tail_ranks(m, ri as int) == placement_chars(m),
            decreases 8 - ri,
        {
            let rank: u8 = 7 - ri;
            let ghost fen_at_rank_start = fen@;
            let mut empty_squares: u8 = 0;
            let mut file: u8 = 0;
            while file < 8
                invariant
                    board_ok(self@),
                    m == self@,
                    ri < 8,
                    rank == 7 - ri,
                    file <= 8,
                    empty_squares <= file,
                    fen@ + rank_tail(m, rank as int, file as int, empty_squares as int)
                        == fen_at_rank_start + rank_tail(m, rank as int, 0, 0),
                decreases 8 - file,
            {
                let square = Square::from_coords(file, rank);
                if let Some(piece) = self.piece_at(square) {
                    if empty_squares > 0 {
                        fen.append(digit_str(empty_squares));
                        empty_squares = 0;
                    }
                    fen.append(piece_str(piece));
                    proof {
                        assert(fen@ + rank_tail(m, rank as int, file as int + 1, 0)
                            =~= fen_at_rank_start + rank_tail(m, rank as int, 0, 0));
                    }
                } else {
                    empty_squares = empty_squares + 1;
                }
                file = file + 1;
            }
            if empty_squares > 0 {
                fen.append(digit_str(empty_squares));
            }
            proof {
                assert(fen@ =~= fen_at_rank_start + rank_tail(m, rank as int, 0, 0));
            }
            if rank > 0 {
                fen.append(slash_str());
            }
            proof {
                if rank > 0 {
                    assert(tail_ranks(m, ri as int) =~= rank_tail(m, rank as int, 0, 0) + seq!['/']
                        + tail_ranks(m, ri as int + 1));
                    assert(fen@ + tail_ranks(m, ri as int + 1) =~= fen_at_rank_start + tail_ranks(
                        m,
                        ri as int,
                    ));
                } else {
                    assert(tail_ranks(m, ri as int) =~= rank_tail(m, 0, 0, 0));
                    assert(tail_ranks(m, ri as int + 1) =~= Seq::<char>::empty());
                    assert(fen@ + tail_ranks(m, ri as int + 1) =~= fen_at_rank_start + tail_ranks(
                        m,
                        ri as int,
                    ));
                }
            }
            ri = ri + 1;
        }
        proof {
            assert(fen@ =~= placement_chars(m));
        }

        fen.append(space_str());
        fen.append(if self.side_to_move() == Color::White {
            white_str()
        } else {
            black_str()
        });

        fen.append(space_str());
        let rights = self.castling_rights();
        let any = rights & CASTLE_WHITE_KINGSIDE != 0 || rights & CASTLE_WHITE_QUEENSIDE != 0
            || rights & CASTLE_BLACK_KINGSIDE != 0 || rights & CASTLE_BLACK_QUEENSIDE != 0;
        if !any {
            fen.append(dash_str());
        } else {
            if rights & CASTLE_WHITE_KINGSIDE != 0 {
                fen.append(upper_k_str());
            }
            if rights & CASTLE_WHITE_QUEENSIDE != 0 {
                fen.append(upper_q_str());
            }
            if rights & CASTLE_BLACK_KINGSIDE != 0 {
                fen.append(lower_k_str());
            }
            if rights & CASTLE_BLACK_QUEENSIDE != 0 {
                fen.append(lower_q_str());
            }
        }
        proof {
            assert(fen@ =~= placement_chars(m) + seq![' '] + seq![side_char(m.side)] + seq![' ']
                + castle_chars(m.rights));
        }

        fen.append(space_str());
        match self.en_passant_square() {
            Some(ep_square) => {
                let notation = ep_square.to_notation();
                fen.append(notation.as_str());
            },
            None => {
                fen.append(dash_str());
            },
        }

        fen.append(space_str());
        append_dec(&mut fen, self.halfmove_clock() as u16);

        fen.append(space_str());
        append_dec(&mut fen, self.fullmove_number());

        proof {
            assert(fen@ =~= fen_chars(m));
        }
        fen
    }
}

/// The placement text of the ranks not yet written when `ri` ranks are
/// done: ranks `7 - ri` down to 0.
pub open spec fn tail_ranks(m: BoardModel, ri: int) -> Seq<char> {
    if ri >= 8 {
        Seq::empty()
    } else {
        ranks_chars(m, 7 - ri)
    }
}

fn slash_str() -> (r: &'static str)
    ensures
        r@ =~= seq!['/'],
{
    proof {
        reveal_strlit("/");
    }
    "/"
}

fn space_str() -> (r: &'static str)
    ensures
        r@ =~= seq![' '],
{
    proof {
        reveal_strlit(" ");
    }
    " "
}

fn dash_str() -> (r: &'static str)
    ensures
        r@ =~= seq!['-'],
{
    proof {
        reveal_strlit("-");
    }
    "-"
}

fn white_str() -> (r: &'static str)
    ensures
        r@ =~= seq!['w'],
{
    proof {
        reveal_strlit("w");
    }
    "w"
}

fn black_str() -> (r: &'static str)
    ensures
        r@ =~= seq!['b'],
{
    proof {
        reveal_strlit("b");
    }
    "b"
}

fn upper_k_str() -> (r: &'static str)
    ensures
        r@ =~= seq!['K'],
{
    proof {
        reveal_strlit("K");
    }
    "K"
}

fn upper_q_str() -> (r: &'static str)
    ensures
        r@ =~= seq!['Q'],
{
    proof {
        reveal_strlit("Q");
    }
    "Q"
}

fn lower_k_str() -> (r: &'static str)
    ensures
        r@ =~= seq!['k'],
{
    proof {
        reveal_strlit("k");
    }
    "k"
}

fn lower_q_str() -> (r: &'static str)
    ensures
        r@ =~= seq!['q'],
{
    proof {
        reveal_strlit("q");
    }
    "q"
}

} // verus!

verus! {

/// The square printed at position `p` of the placement field: ranks from
/// the top down, files left to right.
pub open spec fn print_sq(p: int) -> int {
    8 * (7 - p / 8) + p % 8
}

/// The print position of square `s`.
pub open spec fn print_pos(s: int) -> int {
    (7 - crate::types::sq_rank(s)) * 8 + crate::types::sq_file(s)
}

/// The mask of the first `n` squares in print order.
pub open spec fn mask_upto(n: int) -> u64
    decreases n,
{
    if n <= 0 {
        0u64
    } else {
        crate::bits::set_bit(mask_upto(n - 1), print_sq(n - 1))
    }
}

/// The piece sets restricted to the first `n` squares in print order.
pub open spec fn partial_bbs(m: BoardModel, n: int) -> Seq<u64> {
    Seq::new(12, |i: int| m.bbs[i] & mask_upto(n))
}

/// Print order is a bijection on the board.
proof fn lemma_print_sq(p: int)
    requires
        0 <= p < 64,
    ensures
        crate::types::on_board(print_sq(p)),
        crate::types::sq_rank(print_sq(p)) == 7 - p / 8,
        crate::types::sq_file(print_sq(p)) == p % 8,
        print_pos(print_sq(p)) == p,
{
    let r = 7 - p / 8;
    let f = p % 8;
    assert(0 <= r < 8 && 0 <= f < 8);
    assert((8 * r + f) / 8 == r && (8 * r + f) % 8 == f && 0 <= 8 * r + f < 64)
        by (nonlinear_arith)
        requires
            0 <= r < 8,
            0 <= f < 8,
    ;
}

/// Which squares the print-order mask holds.
proof fn lemma_mask_upto_bits(n: int, s: int)
    requires
        0 <= n <= 64,
    ensures
        crate::bits::bit64(mask_upto(n), s) <==> (crate::types::on_board(s) && 0 <= print_pos(s)
            < n),
    decreases n,
{
    if n == 0 {
        crate::bits::lemma_bit_zero(s);
    } else {
        lemma_mask_upto_bits(n - 1, s);
        lemma_print_sq(n - 1);
        crate::bits::lemma_set_bit(mask_upto(n - 1), print_sq(n - 1), s);
        if crate::types::on_board(s) {
            assert(s == 8 * crate::types::sq_rank(s) + crate::types::sq_file(s) && 0
                <= crate::types::sq_file(s) < 8 && 0 <= crate::types::sq_rank(s) < 8)
                by (nonlinear_arith)
                requires
                    0 <= s < 64,
                    crate::types::sq_rank(s) == s / 8,
                    crate::types::sq_file(s) == s % 8,
            ;
            if s == print_sq(n - 1) {
                assert(print_pos(s) == n - 1);
            }
            if print_pos(s) == n - 1 {
                assert(s == print_sq(n - 1)) by {
                    lemma_print_sq(n - 1);
                    assert(crate::types::sq_rank(s) == 7 - (n - 1) / 8 && crate::types::sq_file(s)
                        == (n - 1) % 8) by (nonlinear_arith)
                        requires
                            (7 - crate::types::sq_rank(s)) * 8 + crate::types::sq_file(s) == n - 1,
                            0 <= crate::types::sq_rank(s) < 8,
                            0 <= crate::types::sq_file(s) < 8,
                    ;
                    assert(s == 8 * crate::types::sq_rank(s) + crate::types::sq_file(s))
                        by (nonlinear_arith)
                        requires
                            0 <= s < 64,
                            crate::types::sq_rank(s) == s / 8,
                            crate::types::sq_file(s) == s % 8,
                    ;
                    assert(print_sq(n - 1) == 8 * (7 - (n - 1) / 8) + (n - 1) % 8);
                }
            }
        }
    }
}

/// An empty square means no piece set holds its bit.
proof fn lemma_empty_square(m: BoardModel, s: int, k: int)
    requires
        crate::model::model_wf(m),
        0 <= k <= 12,
        crate::model::scan_piece(m, s, k) is None,
    ensures
        forall|i: int| k <= i < 12 ==> !crate::bits::bit64(#[trigger] m.bbs[i], s),
    decreases 12 - k,
{
    if k < 12 {
        lemma_empty_square(m, s, k + 1);
    }
}

/// An occupied square holds its piece's bit and no other, under
/// disjointness.
proof fn lemma_occupied_square(m: BoardModel, s: int, p: Piece)
    requires
        crate::model::model_wf(m),
        crate::model::disjoint_sets(m),
        spec_piece_at(m, s) == Some(p),
    ensures
        crate::bits::bit64(m.bbs[crate::model::idx_of(p.color, p.kind)], s),
        forall|i: int|
            0 <= i < 12 && i != crate::model::idx_of(p.color, p.kind) ==> !crate::bits::bit64(
                #[trigger] m.bbs[i],
                s,
            ),
{
    lemma_scan_found(m, s, 0, p);
}

/// What a successful scan tells us about the boards it passed.
proof fn lemma_scan_found(m: BoardModel, s: int, k: int, p: Piece)
    requires
        crate::model::model_wf(m),
        crate::model::disjoint_sets(m),
        0 <= k <= 12,
        crate::model::scan_piece(m, s, k) == Some(p),
    ensures
        crate::bits::bit64(m.bbs[crate::model::idx_of(p.color, p.kind)], s),
        forall|i: int|
            0 <= i < 12 && i != crate::model::idx_of(p.color, p.kind) ==> !crate::bits::bit64(
                #[trigger] m.bbs[i],
                s,
            ),
    decreases 12 - k,
{
    if crate::bits::bit64(m.bbs[k], s) {
        assert(p == crate::model::piece_of_idx(k));
        crate::position::lemma_idx_piece_roundtrip(k);
        assert forall|i: int|
            0 <= i < 12 && i != crate::model::idx_of(p.color, p.kind) implies !crate::bits::bit64(
            #[trigger] m.bbs[i],
            s,
        ) by {
            assert(!(crate::bits::bit64(m.bbs[k], s) && crate::bits::bit64(m.bbs[i], s)));
        }
    } else {
        lemma_scan_found(m, s, k + 1, p);
    }
}

/// Passing an empty square leaves the partial boards unchanged.
proof fn lemma_partial_skip_one(m: BoardModel, n: int)
    requires
        crate::model::model_wf(m),
        0 <= n < 64,
        spec_piece_at(m, print_sq(n)) is None,
    ensures
        partial_bbs(m, n + 1) =~= partial_bbs(m, n),
{
    lemma_print_sq(n);
    lemma_empty_square(m, print_sq(n), 0);
    assert forall|i: int| 0 <= i < 12 implies partial_bbs(m, n + 1)[i] == partial_bbs(m, n)[i] by {
        assert forall|s: int|
            crate::bits::bit64(m.bbs[i] & mask_upto(n + 1), s) == crate::bits::bit64(
                m.bbs[i] & mask_upto(n),
                s,
            ) by {
            crate::bits::lemma_bit_and(m.bbs[i], mask_upto(n + 1), s);
            crate::bits::lemma_bit_and(m.bbs[i], mask_upto(n), s);
            lemma_mask_upto_bits(n + 1, s);
            lemma_mask_upto_bits(n, s);
            if crate::types::on_board(s) && print_pos(s) == n {
                assert(s == print_sq(n)) by {
                    lemma_mask_upto_bits(n + 1, print_sq(n));
                    assert(crate::types::sq_rank(s) == 7 - n / 8 && crate::types::sq_file(s) == n
                        % 8) by (nonlinear_arith)
                        requires
                            (7 - crate::types::sq_rank(s)) * 8 + crate::types::sq_file(s) == n,
                            0 <= crate::types::sq_rank(s) < 8,
                            0 <= crate::types::sq_file(s) < 8,
                            0 <= n < 64,
                    ;
                    assert(s == 8 * crate::types::sq_rank(s) + crate::types::sq_file(s))
                        by (nonlinear_arith)
                        requires
                            0 <= s < 64,
                            crate::types::sq_rank(s) == s / 8,
                            crate::types::sq_file(s) == s % 8,
                    ;
                }
            }
        }
        crate::bits::lemma_bit_ext(m.bbs[i] & mask_upto(n + 1), m.bbs[i] & mask_upto(n));
    }
}

/// Passing several empty squares leaves the partial boards unchanged.
proof fn lemma_partial_skip(m: BoardModel, n: int, k: int)
    requires
        crate::model::model_wf(m),
        0 <= n,
        0 <= k,
        n + k <= 64,
        forall|q: int| n <= q < n + k ==> spec_piece_at(m, print_sq(q)) is None,
    ensures
        partial_bbs(m, n + k) =~= partial_bbs(m, n),
    decreases k,
{
    if k > 0 {
        lemma_partial_skip(m, n, k - 1);
        lemma_partial_skip_one(m, n + k - 1);
        assert(partial_bbs(m, n + k) =~= partial_bbs(m, n + k - 1));
    }
}

/// Recording an occupied square sets exactly its piece's bit.
proof fn lemma_partial_place_one(m: BoardModel, n: int, p: Piece)
    requires
        crate::model::model_wf(m),
        crate::model::disjoint_sets(m),
        0 <= n < 64,
        spec_piece_at(m, print_sq(n)) == Some(p),
    ensures
        partial_bbs(m, n + 1) =~= partial_bbs(m, n).update(
            crate::model::idx_of(p.color, p.kind),
            crate::bits::set_bit(
                partial_bbs(m, n)[crate::model::idx_of(p.color, p.kind)],
                print_sq(n),
            ),
        ),
{
    lemma_print_sq(n);
    lemma_occupied_square(m, print_sq(n), p);
    let pi = crate::model::idx_of(p.color, p.kind);
    let sq = print_sq(n);
    assert(0 <= pi < 12);
    assert forall|i: int|
        0 <= i < 12 implies partial_bbs(m, n + 1)[i] == partial_bbs(m, n).update(
        pi,
        crate::bits::set_bit(partial_bbs(m, n)[pi], sq),
    )[i] by {
        let target: u64 = if i == pi {
            crate::bits::set_bit(partial_bbs(m, n)[pi], sq)
        } else {
            m.bbs[i] & mask_upto(n)
        };
        assert forall|s: int|
            crate::bits::bit64(m.bbs[i] & mask_upto(n + 1), s) == crate::bits::bit64(
                target,
                s,
            ) by {
            crate::bits::lemma_bit_and(m.bbs[i], mask_upto(n + 1), s);
            crate::bits::lemma_bit_and(m.bbs[i], mask_upto(n), s);
            lemma_mask_upto_bits(n + 1, s);
            lemma_mask_upto_bits(n, s);
            if i == pi {
                crate::bits::lemma_set_bit(partial_bbs(m, n)[pi], sq, s);
            }
            if crate::types::on_board(s) && print_pos(s) == n {
                assert(s == print_sq(n)) by {
                    assert(crate::types::sq_rank(s) == 7 - n / 8 && crate::types::sq_file(s) == n
                        % 8) by (nonlinear_arith)
                        requires
                            (7 - crate::types::sq_rank(s)) * 8 + crate::types::sq_file(s) == n,
                            0 <= crate::types::sq_rank(s) < 8,
                            0 <= crate::types::sq_file(s) < 8,
                            0 <= n < 64,
                    ;
                    assert(s == 8 * crate::types::sq_rank(s) + crate::types::sq_file(s))
                        by (nonlinear_arith)
                        requires
                            0 <= s < 64,
                            crate::types::sq_rank(s) == s / 8,
                            crate::types::sq_file(s) == s % 8,
                    ;
                }
            }
        }
        crate::bits::lemma_bit_ext(m.bbs[i] & mask_upto(n + 1), target);
    }
}

} // verus!

verus! {

/// The run-length digits stand for themselves.
proof fn lemma_digit_char_class(e: int)
    requires
        1 <= e <= 8,
    ensures
        '1' <= digit_char(e) <= '8',
        digit_char(e) != '/',
        digit_char(e) != ' ',
        (digit_char(e) as int) - ('0' as int) == e,
        piece_idx_of_char(digit_char(e)) is None,
{
    assert(digit_char(e) == ((('0' as u8) + e as u8) as char));
}

/// A piece letter is no digit, no slash, no space, and names its piece
/// set.
proof fn lemma_piece_char_class(p: Piece)
    ensures
        piece_idx_of_char(piece_char(p)) == Some(crate::model::idx_of(p.color, p.kind)),
        piece_char(p) != '/',
        piece_char(p) != ' ',
        !('1' <= piece_char(p) <= '8'),
{
}

/// Every character of a rank's text is a digit or a piece letter.
proof fn lemma_rank_tail_chars(m: BoardModel, rank: int, file: int, empties: int, j: int)
    requires
        0 <= empties,
        empties + 8 - file <= 8,
        file <= 8,
        0 <= j < rank_tail(m, rank, file, empties).len(),
    ensures
        rank_tail(m, rank, file, empties)[j] != ' ',
        rank_tail(m, rank, file, empties)[j] != '/',
    decreases 8 - file,
{
    let w = rank_tail(m, rank, file, empties);
    if file >= 8 {
        if empties > 0 {
            lemma_digit_char_class(empties);
        }
    } else {
        match spec_piece_at(m, rank * 8 + file) {
            None => {
                lemma_rank_tail_chars(m, rank, file + 1, empties + 1, j);
            },
            Some(p) => {
                lemma_piece_char_class(p);
                let head = empties_chars(empties) + seq![piece_char(p)];
                if j < head.len() {
                    if empties > 0 {
                        lemma_digit_char_class(empties);
                    }
                } else {
                    assert(w[j] == rank_tail(m, rank, file + 1, 0)[j - head.len()]);
                    lemma_rank_tail_chars(m, rank, file + 1, 0, j - head.len());
                }
            },
        }
    }
}

/// No character of the placement field is a space.
proof fn lemma_placement_no_space(m: BoardModel, rank: int, j: int)
    requires
        0 <= rank <= 7,
        0 <= j < ranks_chars(m, rank).len(),
    ensures
        ranks_chars(m, rank)[j] != ' ',
    decreases rank,
{
    let w = ranks_chars(m, rank);
    if rank <= 0 {
        lemma_rank_tail_chars(m, 0, 0, 0, j);
    } else {
        let head = rank_tail(m, rank, 0, 0);
        if j < head.len() {
            lemma_rank_tail_chars(m, rank, 0, 0, j);
        } else if j == head.len() {
            assert(w[j] == '/');
        } else {
            assert(w[j] == ranks_chars(m, rank - 1)[j - head.len() - 1]);
            lemma_placement_no_space(m, rank - 1, j - head.len() - 1);
        }
    }
}

/// Reading one rank's text advances the decoder across the rank and
/// fills in exactly that rank's pieces.
proof fn lemma_place_rank_tail(
    m: BoardModel,
    s: Seq<char>,
    i: int,
    rank: int,
    file: int,
    empties: int,
)
    requires
        crate::model::model_wf(m),
        crate::model::disjoint_sets(m),
        0 <= rank <= 7,
        0 <= empties <= file <= 8,
        0 <= i,
        i + rank_tail(m, rank, file, empties).len() <= s.len(),
        s.subrange(i, i + rank_tail(m, rank, file, empties).len() as int) == rank_tail(
            m,
            rank,
            file,
            empties,
        ),
        forall|fl: int|
            file - empties <= fl < file ==> spec_piece_at(m, #[trigger] (rank * 8 + fl)) is None,
    ensures
        place_rec(
            s,
            i,
            rank,
            file - empties,
            partial_bbs(m, (7 - rank) * 8 + (file - empties)),
        ) == place_rec(
            s,
            i + rank_tail(m, rank, file, empties).len() as int,
            rank,
            8,
            partial_bbs(m, (7 - rank) * 8 + 8),
        ),
    decreases 8 - file,
{
    let w = rank_tail(m, rank, file, empties);
    let n = (7 - rank) * 8 + (file - empties);
    assert forall|fl: int|
        file - empties <= fl < file implies #[trigger] print_sq((7 - rank) * 8 + fl) == rank * 8
        + fl by {
        lemma_print_sq((7 - rank) * 8 + fl);
        assert(((7 - rank) * 8 + fl) / 8 == 7 - rank && ((7 - rank) * 8 + fl) % 8 == fl)
            by (nonlinear_arith)
            requires
                0 <= 7 - rank < 8,
                0 <= fl < 8,
        ;
    }
    if file >= 8 {
        if empties == 0 {
            assert(w =~= Seq::<char>::empty());
        } else {
            assert(w =~= seq![digit_char(empties)]);
            lemma_digit_char_class(empties);
            assert(s[i] == w[0]);
            lemma_partial_skip(m, n, empties);
            assert(partial_bbs(m, n) == partial_bbs(m, (7 - rank) * 8 + 8));
        }
    } else {
        match spec_piece_at(m, rank * 8 + file) {
            None => {
                lemma_place_rank_tail(m, s, i, rank, file + 1, empties + 1);
            },
            Some(p) => {
                let head = empties_chars(empties) + seq![piece_char(p)];
                let rest = rank_tail(m, rank, file + 1, 0);
                assert(w =~= head + rest);
                lemma_piece_char_class(p);
                let pi = crate::model::idx_of(p.color, p.kind);
                assert(print_sq((7 - rank) * 8 + file) == rank * 8 + file) by {
                    lemma_print_sq((7 - rank) * 8 + file);
                    assert(((7 - rank) * 8 + file) / 8 == 7 - rank && ((7 - rank) * 8 + file) % 8
                        == file) by (nonlinear_arith)
                        requires
                            0 <= 7 - rank < 8,
                            0 <= file < 8,
                    ;
                }
                if empties == 0 {
                    assert(s[i] == w[0]);
                    assert(w[0] == piece_char(p));
                    lemma_partial_place_one(m, (7 - rank) * 8 + file, p);
                    assert(place_rec(s, i, rank, file, partial_bbs(m, n)) == place_rec(
                        s,
                        i + 1,
                        rank,
                        file + 1,
                        partial_bbs(m, n).update(
                            pi,
                            crate::bits::set_bit(partial_bbs(m, n)[pi], rank * 8 + file),
                        ),
                    ));
                    assert(partial_bbs(m, n).update(
                        pi,
                        crate::bits::set_bit(partial_bbs(m, n)[pi], rank * 8 + file),
                    ) == partial_bbs(m, (7 - rank) * 8 + file + 1));
                    assert(w.len() == 1 + rest.len());
                    assert(s.subrange(i + 1, i + 1 + rest.len() as int) == rest) by {
                        assert forall|j: int|
                            0 <= j < rest.len() implies s.subrange(
                            i + 1,
                            i + 1 + rest.len() as int,
                        )[j] == rest[j] by {
                            assert(s.subrange(i + 1, i + 1 + rest.len() as int)[j] == s[i + 1 + j]);
                            assert(s[i + 1 + j] == s.subrange(i, i + w.len() as int)[1 + j]);
                            assert(w[1 + j] == (head + rest)[1 + j]);
                        }
                        assert(s.subrange(i + 1, i + 1 + rest.len() as int) =~= rest);
                    }
                    lemma_place_rank_tail(m, s, i + 1, rank, file + 1, 0);
                } else {
                    assert(s[i] == w[0]);
                    assert(w[0] == digit_char(empties));
                    lemma_digit_char_class(empties);
                    lemma_partial_skip(m, n, empties);
                    assert(place_rec(s, i, rank, file - empties, partial_bbs(m, n)) == place_rec(
                        s,
                        i + 1,
                        rank,
                        file,
                        partial_bbs(m, n),
                    ));
                    assert(s[i + 1] == w[1]);
                    assert(w[1] == piece_char(p));
                    lemma_partial_place_one(m, (7 - rank) * 8 + file, p);
                    assert(partial_bbs(m, n) == partial_bbs(m, (7 - rank) * 8 + file));
                    assert(place_rec(s, i + 1, rank, file, partial_bbs(m, n)) == place_rec(
                        s,
                        i + 2,
                        rank,
                        file + 1,
                        partial_bbs(m, (7 - rank) * 8 + file).update(
                            pi,
                            crate::bits::set_bit(
                                partial_bbs(m, (7 - rank) * 8 + file)[pi],
                                rank * 8 + file,
                            ),
                        ),
                    ));
                    assert(partial_bbs(m, (7 - rank) * 8 + file).update(
                        pi,
                        crate::bits::set_bit(
                            partial_bbs(m, (7 - rank) * 8 + file)[pi],
                            rank * 8 + file,
                        ),
                    ) == partial_bbs(m, (7 - rank) * 8 + file + 1));
                    assert(w.len() == 2 + rest.len());
                    assert(s.subrange(i + 2, i + 2 + rest.len() as int) == rest) by {
                        assert forall|j: int|
                            0 <= j < rest.len() implies s.subrange(
                            i + 2,
                            i + 2 + rest.len() as int,
                        )[j] == rest[j] by {
                            assert(s.subrange(i + 2, i + 2 + rest.len() as int)[j] == s[i + 2 + j]);
                            assert(s[i + 2 + j] == s.subrange(i, i + w.len() as int)[2 + j]);
                            assert(w[2 + j] == (head + rest)[2 + j]);
                        }
                        assert(s.subrange(i + 2, i + 2 + rest.len() as int) =~= rest);
                    }
                    lemma_place_rank_tail(m, s, i + 2, rank, file + 1, 0);
                }
            },
        }
    }
}

} // verus!

verus! {

/// Reading the ranks from `rank` down to 0, slash-separated and ending
/// the string, completes the decode.
proof fn lemma_place_ranks(m: BoardModel, s: Seq<char>, i: int, rank: int)
    requires
        crate::model::model_wf(m),
        crate::model::disjoint_sets(m),
        0 <= rank <= 7,
        0 <= i,
        i + ranks_chars(m, rank).len() == s.len(),
        s.subrange(i, s.len() as int) == ranks_chars(m, rank),
    ensures
        place_rec(s, i, rank, 0, partial_bbs(m, (7 - rank) * 8)) == Some(partial_bbs(m, 64)),
    decreases rank,
{
    let w = ranks_chars(m, rank);
    if rank <= 0 {
        let tail = rank_tail(m, 0, 0, 0);
        assert(w == tail);
        assert(s.subrange(i, i + tail.len() as int) == tail);
        lemma_place_rank_tail(m, s, i, 0, 0, 0);
        assert(place_rec(s, i + tail.len() as int, 0, 8, partial_bbs(m, 64)) == Some(
            partial_bbs(m, 64),
        ));
    } else {
        let head = rank_tail(m, rank, 0, 0);
        let rest = ranks_chars(m, rank - 1);
        assert(w =~= head + seq!['/'] + rest);
        assert(s.subrange(i, i + head.len() as int) == head) by {
            assert forall|j: int|
                0 <= j < head.len() implies s.subrange(i, i + head.len() as int)[j]
                == head[j] by {
                assert(s.subrange(i, i + head.len() as int)[j] == s[i + j]);
                assert(s[i + j] == s.subrange(i, s.len() as int)[j]);
                assert(w[j] == (head + seq!['/'] + rest)[j]);
            }
            assert(s.subrange(i, i + head.len() as int) =~= head);
        }
        lemma_place_rank_tail(m, s, i, rank, 0, 0);
        let k = i + head.len() as int;
        assert(s[k] == '/') by {
            assert(s[k] == s.subrange(i, s.len() as int)[head.len() as int]);
            assert(w[head.len() as int] == '/');
        }
        assert(place_rec(s, k, rank, 8, partial_bbs(m, (7 - rank) * 8 + 8)) == place_rec(
            s,
            k + 1,
            rank - 1,
            0,
            partial_bbs(m, (7 - rank) * 8 + 8),
        ));
        assert((7 - rank) * 8 + 8 == (7 - (rank - 1)) * 8);
        assert(s.subrange(k + 1, s.len() as int) == rest) by {
            assert forall|j: int|
                0 <= j < rest.len() implies s.subrange(k + 1, s.len() as int)[j] == rest[j] by {
                assert(s.subrange(k + 1, s.len() as int)[j] == s[k + 1 + j]);
                assert(s[k + 1 + j] == s.subrange(i, s.len() as int)[head.len() + 1 + j]);
                assert(w[head.len() + 1 + j] == (head + seq!['/'] + rest)[head.len() + 1 + j]);
            }
            assert(s.subrange(k + 1, s.len() as int) =~= rest);
        }
        lemma_place_ranks(m, s, k + 1, rank - 1);
    }
}

/// What the round trip asks of a position: twelve pairwise disjoint piece
/// sets, an en-passant target on the board, and rights within the four
/// flags.
pub open spec fn fen_model_ok(m: BoardModel) -> bool {
    &&& crate::model::model_wf(m)
    &&& crate::model::disjoint_sets(m)
    &&& ep_sq_ok(m.ep)
    &&& m.rights < 16
}

/// The placement field reads back as exactly the piece sets.
proof fn lemma_placement_round_trip(m: BoardModel)
    requires
        fen_model_ok(m),
    ensures
        parse_placement(placement_chars(m)) == Some(m.bbs),
        no_space(placement_chars(m)),
{
    let w = placement_chars(m);
    assert forall|j: int| 0 <= j < w.len() implies w[j] != ' ' by {
        lemma_placement_no_space(m, 7, j);
    }
    let zeros = Seq::new(12, |i: int| 0u64);
    assert(zeros == partial_bbs(m, 0)) by {
        assert forall|i: int| 0 <= i < 12 implies partial_bbs(m, 0)[i] == 0u64 by {
            assert(m.bbs[i] & 0u64 == 0u64) by (bit_vector);
        }
        assert(zeros =~= partial_bbs(m, 0));
    }
    assert(w.subrange(0, w.len() as int) == w) by {
        assert(w.subrange(0, w.len() as int) =~= w);
    }
    lemma_place_ranks(m, w, 0, 7);
    assert(partial_bbs(m, 64) == m.bbs) by {
        assert forall|i: int| 0 <= i < 12 implies partial_bbs(m, 64)[i] == m.bbs[i] by {
            assert forall|s2: int|
                crate::bits::bit64(m.bbs[i] & mask_upto(64), s2) == crate::bits::bit64(
                    m.bbs[i],
                    s2,
                ) by {
                crate::bits::lemma_bit_and(m.bbs[i], mask_upto(64), s2);
                lemma_mask_upto_bits(64, s2);
                if crate::types::on_board(s2) {
                    assert(0 <= print_pos(s2) < 64) by (nonlinear_arith)
                        requires
                            print_pos(s2) == (7 - s2 / 8) * 8 + s2 % 8,
                            0 <= s2 < 64,
                            crate::types::sq_rank(s2) == s2 / 8,
                            crate::types::sq_file(s2) == s2 % 8,
                    ;
                }
            }
            crate::bits::lemma_bit_ext(m.bbs[i] & mask_upto(64), m.bbs[i]);
        }
        assert(partial_bbs(m, 64) =~= m.bbs);
    }
}

/// Export then import is the identity: the canonical record of any
/// well-formed position reads back as exactly that position, with a fresh
/// undo history. This is the round-trip law for the record format.
#[verifier::rlimit(100)]
#[verifier::spinoff_prover]
pub proof fn lemma_fen_round_trip(m: BoardModel)
    requires
        fen_model_ok(m),
    ensures
        parse_fen(fen_chars(m)) == Some(BoardModel { hist: Seq::<crate::model::BoardState>::empty(), ..m }),
{
    let pl = placement_chars(m);
    let sd = seq![side_char(m.side)];
    let cs = castle_chars(m.rights);
    let ep = ep_chars(m.ep);
    let hm = dec_chars(m.halfmove as int);
    let fm = dec_chars(m.fullmove as int);
    let whole = fen_chars(m);

    lemma_placement_round_trip(m);
    lemma_side_round_trip(m.side);
    lemma_castle_round_trip(m.rights);
    lemma_ep_round_trip(m.ep);
    lemma_dec_round_trip(m.halfmove as int);
    lemma_dec_round_trip(m.fullmove as int);

    let t5 = fm;
    let t4 = hm + seq![' '] + t5;
    let t3 = ep + seq![' '] + t4;
    let t2 = cs + seq![' '] + t3;
    let t1 = sd + seq![' '] + t2;
    assert(whole =~= pl + seq![' '] + t1);
    assert(t1 =~= sd + seq![' '] + t2);

    lemma_split_whole(t5);
    lemma_split_prefix(hm, t5);
    lemma_split_prefix(ep, t4);
    lemma_split_prefix(cs, t3);
    lemma_split_prefix(sd, t2);
    lemma_split_prefix(pl, t1);

    let fs = split_sp(whole);
    assert(fs =~~= seq![pl, sd, cs, ep, hm, fm]) by {
        assert(split_sp(t5) =~~= seq![fm]);
        assert(split_sp(t4) =~~= seq![hm, fm]);
        assert(split_sp(t3) =~~= seq![ep, hm, fm]);
        assert(split_sp(t2) =~~= seq![cs, ep, hm, fm]);
        assert(split_sp(t1) =~~= seq![sd, cs, ep, hm, fm]);
    }
    assert(fs.len() == 6);
    assert(fs[0] == pl && fs[1] == sd && fs[2] == cs && fs[3] == ep && fs[4] == hm && fs[5] == fm);
    assert(parse_clock(fs[4], 255) == Some(m.halfmove as int));
    assert(parse_clock(fs[5], 65535) == Some(m.fullmove as int));
    assert(parse_fen(whole) == Some(
        BoardModel {
            bbs: m.bbs,
            side: m.side,
            rights: m.rights,
            ep: m.ep,
            halfmove: m.halfmove,
            fullmove: m.fullmove,
            hist: Seq::empty(),
        },
    ));
}

} // verus!
