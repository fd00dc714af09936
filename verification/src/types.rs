//! Core value types: colors, piece kinds, squares, moves, game states, and
//! the algebraic-notation helpers that name squares and pieces.

use vstd::prelude::*;
use vstd::string::StrSliceExecFns;
use vstd::string::StringExecFns;

verus! {

/// One of the two sides.
#[derive(Debug, Clone, Copy, PartialEq, Eq, Hash, Structural)]
pub enum Color {
    White,
    Black,
}

/// The six kinds of chess piece.
#[derive(Debug, Clone, Copy, PartialEq, Eq, Hash, Structural)]
pub enum PieceKind {
    Pawn,
    Knight,
    Bishop,
    Rook,
    Queen,
    King,
}

/// A colored piece.
#[derive(Debug, Clone, Copy, PartialEq, Eq, Hash, Structural)]
pub struct Piece {
    pub color: Color,
    pub kind: PieceKind,
}

/// A board square, indexed 0 = a1 through 63 = h8, file-major within rank.
#[derive(Debug, Clone, Copy, PartialEq, Eq, Hash, Structural)]
pub struct Square(pub u8);

/// A move value: origin, destination, the moving piece, an optional
/// promotion kind, and the captured piece if any. Moves do not reference
/// the position they were generated from.
#[derive(Debug, Clone, Copy, PartialEq, Eq)]
pub struct Move {
    pub from: Square,
    pub to: Square,
    pub piece: Piece,
    pub promotion: Option<PieceKind>,
    pub captures: Option<Piece>,
}

/// Terminal-state classification of a position.
#[derive(Debug, Clone, Copy, PartialEq, Eq, Structural)]
pub enum GameState {
    InProgress,
    Checkmate,
    Stalemate,
}

/// The file (column) of a square index, 0 = the a-file.
pub open spec fn sq_file(s: int) -> int {
    s % 8
}

/// The rank (row) of a square index, 0 = rank 1.
pub open spec fn sq_rank(s: int) -> int {
    s / 8
}

/// True when a square index lies on the board.
pub open spec fn on_board(s: int) -> bool {
    0 <= s < 64
}

/// The side opposite to `c`.
pub open spec fn flip_color(c: Color) -> Color {
    match c {
        Color::White => Color::Black,
        Color::Black => Color::White,
    }
}

impl Color {
    /// The opposing side.
    pub fn opposite(&self) -> (r: Color)
        ensures
            r == flip_color(*self),
    {
        if *self == Color::White {
            Color::Black
        } else {
            Color::White
        }
    }
}

/// The two-character algebraic name of a square index: file letter, rank digit.
pub open spec fn spec_notation(s: int) -> Seq<char> {
    seq![
        (('a' as u8) + (s % 8) as u8) as char,
        (('1' as u8) + (s / 8) as u8) as char,
    ]
}

/// The square named by a two-character algebraic string, if the string is
/// a file letter `a`..`h` followed by a rank digit `1`..`8`.
pub open spec fn spec_square_of(s: Seq<char>) -> Option<Square> {
    if s.len() == 2 && 'a' <= s[0] <= 'h' && '1' <= s[1] <= '8' {
        Some(Square((((s[1] as u8) - ('1' as u8)) * 8 + ((s[0] as u8) - ('a' as u8))) as u8))
    } else {
        None
    }
}

impl Square {
    /// The square at the given file and rank.
    pub fn from_coords(file: u8, rank: u8) -> (r: Self)
        requires
            file < 8,
            rank < 8,
        ensures
            r.0 == rank * 8 + file,
    {
        Self(rank * 8 + file)
    }

    /// The (rank, file) pair of this square.
    pub fn to_coords(&self) -> (r: (u8, u8))
        ensures
            r.0 == self.0 / 8,
            r.1 == self.0 % 8,
    {
        (self.0 / 8, self.0 % 8)
    }

    /// The algebraic name of this square, such as `e4`.
    pub fn to_notation(&self) -> (r: String)
        requires
            self.0 < 64,
        ensures
            r@ == spec_notation(self.0 as int),
    {
        let file: u8 = self.0 % 8;
        let rank: u8 = self.0 / 8;
        let mut out = String::new();
        out.append(file_str(file));
        out.append(rank_str(rank));
        proof {
            assert(out@ =~= spec_notation(self.0 as int));
        }
        out
    }

    /// Parses an algebraic square name; rejects anything that is not a
    /// file letter `a`..`h` followed by a rank digit `1`..`8`.
    pub fn from_notation(s: &str) -> (r: Option<Self>)
        ensures
            r == spec_square_of(s@),
            match r {
                Some(sq) => sq.0 < 64,
                None => true,
            },
    {
        if s.unicode_len() != 2 {
            return None;
        }
        let c0 = s.get_char(0);
        let c1 = s.get_char(1);
        if c0 < 'a' || c0 > 'h' || c1 < '1' || c1 > '8' {
            return None;
        }
        let file: u8 = (c0 as u8) - ('a' as u8);
        let rank: u8 = (c1 as u8) - ('1' as u8);
        Some(Self::from_coords(file, rank))
    }
}

/// The lowercase file letter of file index `f`.
fn file_str(f: u8) -> (r: &'static str)
    requires
        f < 8,
    ensures
        r@.len() == 1,
        r@[0] == ((('a' as u8) + f) as char),
{
    proof {
        reveal_strlit("a");
        reveal_strlit("b");
        reveal_strlit("c");
        reveal_strlit("d");
        reveal_strlit("e");
        reveal_strlit("f");
        reveal_strlit("g");
        reveal_strlit("h");
    }
    match f {
        0 => "a",
        1 => "b",
        2 => "c",
        3 => "d",
        4 => "e",
        5 => "f",
        6 => "g",
        _ => "h",
    }
}

/// The rank digit of rank index `k`.
fn rank_str(k: u8) -> (r: &'static str)
    requires
        k < 8,
    ensures
        r@.len() == 1,
        r@[0] == ((('1' as u8) + k) as char),
{
    proof {
        reveal_strlit("1");
        reveal_strlit("2");
        reveal_strlit("3");
        reveal_strlit("4");
        reveal_strlit("5");
        reveal_strlit("6");
        reveal_strlit("7");
        reveal_strlit("8");
    }
    match k {
        0 => "1",
        1 => "2",
        2 => "3",
        3 => "4",
        4 => "5",
        5 => "6",
        6 => "7",
        _ => "8",
    }
}

/// The uppercase letter naming a piece kind.
pub open spec fn spec_kind_char(kind: PieceKind) -> char {
    match kind {
        PieceKind::Pawn => 'P',
        PieceKind::Knight => 'N',
        PieceKind::Bishop => 'B',
        PieceKind::Rook => 'R',
        PieceKind::Queen => 'Q',
        PieceKind::King => 'K',
    }
}

/// The piece kind a letter names, either case.
pub open spec fn spec_kind_of_char(c: char) -> Option<PieceKind> {
    if c == 'P' || c == 'p' {
        Some(PieceKind::Pawn)
    } else if c == 'N' || c == 'n' {
        Some(PieceKind::Knight)
    } else if c == 'B' || c == 'b' {
        Some(PieceKind::Bishop)
    } else if c == 'R' || c == 'r' {
        Some(PieceKind::Rook)
    } else if c == 'Q' || c == 'q' {
        Some(PieceKind::Queen)
    } else if c == 'K' || c == 'k' {
        Some(PieceKind::King)
    } else {
        None
    }
}

/// The uppercase letter naming a piece kind.
pub fn piece_kind_to_char(kind: PieceKind) -> (c: char)
    ensures
        c == spec_kind_char(kind),
{
    match kind {
        PieceKind::Pawn => 'P',
        PieceKind::Knight => 'N',
        PieceKind::Bishop => 'B',
        PieceKind::Rook => 'R',
        PieceKind::Queen => 'Q',
        PieceKind::King => 'K',
    }
}

/// The piece kind a letter names, accepting either case.
pub fn char_to_piece_kind(c: char) -> (r: Option<PieceKind>)
    ensures
        r == spec_kind_of_char(c),
{
    if c == 'P' || c == 'p' {
        Some(PieceKind::Pawn)
    } else if c == 'N' || c == 'n' {
        Some(PieceKind::Knight)
    } else if c == 'B' || c == 'b' {
        Some(PieceKind::Bishop)
    } else if c == 'R' || c == 'r' {
        Some(PieceKind::Rook)
    } else if c == 'Q' || c == 'q' {
        Some(PieceKind::Queen)
    } else if c == 'K' || c == 'k' {
        Some(PieceKind::King)
    } else {
        None
    }
}

/// A piece selector such as `Pe2`: a kind letter followed by a square name.
pub open spec fn spec_piece_and_square(s: Seq<char>) -> Option<(PieceKind, Square)> {
    if s.len() != 3 {
        None
    } else {
        match (spec_kind_of_char(s[0]), spec_square_of(s.subrange(1, 3))) {
            (Some(k), Some(sq)) => Some((k, sq)),
            _ => None,
        }
    }
}

/// Parses a piece selector such as `Pe2`.
pub fn parse_piece_and_square(s: &str) -> (r: Option<(PieceKind, Square)>)
    ensures
        r == spec_piece_and_square(s@),
{
    if s.unicode_len() != 3 {
        return None;
    }
    let piece_kind = match char_to_piece_kind(s.get_char(0)) {
        Some(k) => k,
        None => {
            return None;
        },
    };
    let rest = s.substring_char(1, 3);
    let square = match Square::from_notation(rest) {
        Some(sq) => sq,
        None => {
            return None;
        },
    };
    Some((piece_kind, square))
}

/// The one-letter board-diagram name of a piece: uppercase for White,
/// lowercase for Black.
pub fn map_piece_to_char(piece: &Piece) -> (r: &'static str)
    ensures
        r@.len() == 1,
        r@[0] == (if piece.color == Color::White {
            spec_kind_char(piece.kind)
        } else {
            (((spec_kind_char(piece.kind) as u8) + 32) as char)
        }),
{
    proof {
        reveal_strlit("P");
        reveal_strlit("p");
        reveal_strlit("N");
        reveal_strlit("n");
        reveal_strlit("B");
        reveal_strlit("b");
        reveal_strlit("R");
        reveal_strlit("r");
        reveal_strlit("Q");
        reveal_strlit("q");
        reveal_strlit("K");
        reveal_strlit("k");
    }
    match (piece.kind, piece.color) {
        (PieceKind::Pawn, Color::White) => "P",
        (PieceKind::Pawn, Color::Black) => "p",
        (PieceKind::Knight, Color::White) => "N",
        (PieceKind::Knight, Color::Black) => "n",
        (PieceKind::Bishop, Color::White) => "B",
        (PieceKind::Bishop, Color::Black) => "b",
        (PieceKind::Rook, Color::White) => "R",
        (PieceKind::Rook, Color::Black) => "r",
        (PieceKind::Queen, Color::White) => "Q",
        (PieceKind::Queen, Color::Black) => "q",
        (PieceKind::King, Color::White) => "K",
        (PieceKind::King, Color::Black) => "k",
    }
}

impl Move {
    /// A move from its five components.
    pub fn new(
        from: Square,
        to: Square,
        piece: Piece,
        promotion: Option<PieceKind>,
        captures: Option<Piece>,
    ) -> (r: Self)
        ensures
            r == (Move { from, to, piece, promotion, captures }),
    {
        Self { from, to, piece, promotion, captures }
    }
}

} // verus!
