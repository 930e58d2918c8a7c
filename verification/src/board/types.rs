//! Colors, piece kinds, pieces, and square arithmetic.

use vstd::prelude::*;
use vstd::string::{StringSliceAdditionalSpecFns, StringExecFns};

use crate::text::{ascii_chars, string_from_ascii};

verus! {

pub type Square = u8;

pub const CASTLE_WK: u8 = 1;
pub const CASTLE_WQ: u8 = 2;
pub const CASTLE_BK: u8 = 4;
pub const CASTLE_BQ: u8 = 8;

#[derive(Clone, Copy, Debug, PartialEq, Eq, Hash, Structural)]
pub enum Color {
    White,
    Black,
}

impl Color {
    pub open spec fn opp(self) -> Color {
        match self {
            Color::White => Color::Black,
            Color::Black => Color::White,
        }
    }

    pub open spec fn idx(self) -> int {
        match self {
            Color::White => 0,
            Color::Black => 1,
        }
    }

    pub fn opposite(self) -> (r: Self)
        ensures
            r == self.opp(),
    {
        match self {
            Color::White => Color::Black,
            Color::Black => Color::White,
        }
    }

    pub fn index(self) -> (r: usize)
        ensures
            r == self.idx(),
    {
        match self {
            Color::White => 0,
            Color::Black => 1,
        }
    }

    pub fn pawn_push(self) -> (r: i8)
        ensures
            r == (if self == Color::White { 8i8 } else { -8i8 }),
    {
        match self {
            Color::White => 8,
            Color::Black => -8,
        }
    }

    pub fn home_rank(self) -> (r: u8)
        ensures
            r == (if self == Color::White { 0u8 } else { 7u8 }),
    {
        match self {
            Color::White => 0,
            Color::Black => 7,
        }
    }
}

#[derive(Clone, Copy, Debug, PartialEq, Eq, Hash, Structural)]
pub enum PieceKind {
    Pawn,
    Knight,
    Bishop,
    Rook,
    Queen,
    King,
}

impl PieceKind {
    pub open spec fn idx(self) -> int {
        match self {
            PieceKind::Pawn => 0,
            PieceKind::Knight => 1,
            PieceKind::Bishop => 2,
            PieceKind::Rook => 3,
            PieceKind::Queen => 4,
            PieceKind::King => 5,
        }
    }

    pub open spec fn of_idx(i: int) -> PieceKind {
        if i == 0 {
            PieceKind::Pawn
        } else if i == 1 {
            PieceKind::Knight
        } else if i == 2 {
            PieceKind::Bishop
        } else if i == 3 {
            PieceKind::Rook
        } else if i == 4 {
            PieceKind::Queen
        } else {
            PieceKind::King
        }
    }

    pub fn index(self) -> (r: usize)
        ensures
            r == self.idx(),
    {
        match self {
            PieceKind::Pawn => 0,
            PieceKind::Knight => 1,
            PieceKind::Bishop => 2,
            PieceKind::Rook => 3,
            PieceKind::Queen => 4,
            PieceKind::King => 5,
        }
    }

    pub open spec fn promotion_of(ch: char) -> Option<PieceKind> {
        if ch == 'q' || ch == 'Q' {
            Some(PieceKind::Queen)
        } else if ch == 'r' || ch == 'R' {
            Some(PieceKind::Rook)
        } else if ch == 'b' || ch == 'B' {
            Some(PieceKind::Bishop)
        } else if ch == 'n' || ch == 'N' {
            Some(PieceKind::Knight)
        } else {
            None
        }
    }

    /// The promotion piece named by a letter, in either case.
    pub fn from_promotion(ch: char) -> (r: Option<Self>)
        ensures
            r == PieceKind::promotion_of(ch),
    {
        if ch == 'q' || ch == 'Q' {
            Some(PieceKind::Queen)
        } else if ch == 'r' || ch == 'R' {
            Some(PieceKind::Rook)
        } else if ch == 'b' || ch == 'B' {
            Some(PieceKind::Bishop)
        } else if ch == 'n' || ch == 'N' {
            Some(PieceKind::Knight)
        } else {
            None
        }
    }

    pub open spec fn san_char(self) -> char {
        match self {
            PieceKind::Pawn => ' ',
            PieceKind::Knight => 'N',
            PieceKind::Bishop => 'B',
            PieceKind::Rook => 'R',
            PieceKind::Queen => 'Q',
            PieceKind::King => 'K',
        }
    }

    pub open spec fn fen_char(self) -> char {
        match self {
            PieceKind::Pawn => 'p',
            PieceKind::Knight => 'n',
            PieceKind::Bishop => 'b',
            PieceKind::Rook => 'r',
            PieceKind::Queen => 'q',
            PieceKind::King => 'k',
        }
    }

    pub fn san_letter(self) -> (c: char)
        ensures
            c == self.san_char(),
    {
        match self {
            PieceKind::Pawn => ' ',
            PieceKind::Knight => 'N',
            PieceKind::Bishop => 'B',
            PieceKind::Rook => 'R',
            PieceKind::Queen => 'Q',
            PieceKind::King => 'K',
        }
    }

    pub fn fen_letter(self) -> (c: char)
        ensures
            c == self.fen_char(),
    {
        match self {
            PieceKind::Pawn => 'p',
            PieceKind::Knight => 'n',
            PieceKind::Bishop => 'b',
            PieceKind::Rook => 'r',
            PieceKind::Queen => 'q',
            PieceKind::King => 'k',
        }
    }
}

#[derive(Clone, Copy, Debug, PartialEq, Eq, Hash, Structural)]
pub struct Piece {
    pub color: Color,
    pub kind: PieceKind,
}

impl Piece {
    pub open spec fn idx(self) -> int {
        self.color.idx() * 6 + self.kind.idx()
    }

    /// The piece whose index (`color * 6 + kind`) is `i`.
    pub open spec fn of_idx(i: int) -> Piece {
        Piece {
            color: if i < 6 { Color::White } else { Color::Black },
            kind: PieceKind::of_idx(if i < 6 { i } else { i - 6 }),
        }
    }

    pub proof fn lemma_idx(self)
        ensures
            0 <= self.idx() < 12,
            Piece::of_idx(self.idx()) == self,
    {
    }

    pub proof fn lemma_of_idx(i: int)
        requires
            0 <= i < 12,
        ensures
            Piece::of_idx(i).idx() == i,
    {
    }

    pub fn index(self) -> (r: usize)
        ensures
            r == self.idx(),
            r < 12,
    {
        self.color.index() * 6 + self.kind.index()
    }

    pub open spec fn from_fen_spec(ch: char) -> Option<Piece> {
        let color = if 'A' <= ch && ch <= 'Z' { Color::White } else { Color::Black };
        let lower = if 'A' <= ch && ch <= 'Z' { ((ch as u32) + 32) as char } else { ch };
        if lower == 'p' {
            Some(Piece { color, kind: PieceKind::Pawn })
        } else if lower == 'n' {
            Some(Piece { color, kind: PieceKind::Knight })
        } else if lower == 'b' {
            Some(Piece { color, kind: PieceKind::Bishop })
        } else if lower == 'r' {
            Some(Piece { color, kind: PieceKind::Rook })
        } else if lower == 'q' {
            Some(Piece { color, kind: PieceKind::Queen })
        } else if lower == 'k' {
            Some(Piece { color, kind: PieceKind::King })
        } else {
            None
        }
    }

    /// The piece named by a FEN letter: upper case is White, lower case Black.
    pub fn from_fen(ch: char) -> (r: Option<Self>)
        ensures
            r == Piece::from_fen_spec(ch),
    {
        let upper = 'A' <= ch && ch <= 'Z';
        let color = if upper { Color::White } else { Color::Black };
        let kind = if ch == 'p' || ch == 'P' {
            PieceKind::Pawn
        } else if ch == 'n' || ch == 'N' {
            PieceKind::Knight
        } else if ch == 'b' || ch == 'B' {
            PieceKind::Bishop
        } else if ch == 'r' || ch == 'R' {
            PieceKind::Rook
        } else if ch == 'q' || ch == 'Q' {
            PieceKind::Queen
        } else if ch == 'k' || ch == 'K' {
            PieceKind::King
        } else {
            return None;
        };
        Some(Piece { color, kind })
    }

    pub open spec fn fen_symbol(self) -> char {
        if self.color == Color::White {
            ((self.kind.fen_char() as u32) - 32) as char
        } else {
            self.kind.fen_char()
        }
    }

    /// The FEN letter of the piece: upper case for White.
    pub fn fen_char(self) -> (c: char)
        ensures
            c == self.fen_symbol(),
            Piece::from_fen_spec(c) == Some(self),
            ('a' <= c && c <= 'z') || ('A' <= c && c <= 'Z'),
    {
        let white = self.color == Color::White;
        match self.kind {
            PieceKind::Pawn => if white { 'P' } else { 'p' },
            PieceKind::Knight => if white { 'N' } else { 'n' },
            PieceKind::Bishop => if white { 'B' } else { 'b' },
            PieceKind::Rook => if white { 'R' } else { 'r' },
            PieceKind::Queen => if white { 'Q' } else { 'q' },
            PieceKind::King => if white { 'K' } else { 'k' },
        }
    }
}

pub open spec fn file_spec(sq: int) -> int {
    sq % 8
}

pub open spec fn rank_spec(sq: int) -> int {
    sq / 8
}

proof fn lemma_file_rank_bits(sq: u8)
    by (bit_vector)
    ensures
        sq & 7 == sq % 8,
        sq >> 3 == sq / 8,
        (sq & 7) + (sq >> 3) < 64,
{
}

pub fn file_of(sq: Square) -> (r: u8)
    ensures
        r == file_spec(sq as int),
        r < 8,
{
    proof { lemma_file_rank_bits(sq); }
    sq & 7
}

pub fn rank_of(sq: Square) -> (r: u8)
    ensures
        r == rank_spec(sq as int),
        r < 32,
{
    proof { lemma_file_rank_bits(sq); }
    sq >> 3
}

pub open spec fn light_square(sq: int) -> bool {
    (file_spec(sq) + rank_spec(sq)) % 2 == 1
}

proof fn lemma_low_bit(x: u8)
    by (bit_vector)
    ensures
        (x & 1 != 0) == (x % 2 == 1),
{
}

/// Whether the square is a light square (a1 is dark).
pub fn square_color(sq: Square) -> (r: bool)
    ensures
        r == light_square(sq as int),
{
    let s = file_of(sq) + rank_of(sq);
    proof { lemma_low_bit(s); }
    (s & 1) != 0
}

pub open spec fn square_name_chars(sq: int) -> Seq<char> {
    seq![(97 + file_spec(sq)) as char, (49 + rank_spec(sq)) as char]
}

/// The square's algebraic name, such as `e4`.
pub fn square_name(sq: Square) -> (s: String)
    ensures
        s@ == square_name_chars(sq as int),
{
    let mut out: Vec<u8> = Vec::new();
    out.push(97u8 + file_of(sq));
    out.push(49u8 + rank_of(sq));
    proof {
        assert(ascii_chars(out@) =~= square_name_chars(sq as int));
    }
    string_from_ascii(out)
}

/// The square named by two bytes `file rank`, when they name one.
pub open spec fn square_of_bytes(b: Seq<u8>) -> Option<u8> {
    if b.len() == 2 && 97 <= b[0] <= 104 && 49 <= b[1] <= 56 {
        Some(((b[0] - 97) + 8 * (b[1] - 49)) as u8)
    } else {
        None
    }
}

pub proof fn lemma_square_name_parses(sq: int)
    requires
        0 <= sq < 64,
    ensures
        square_of_bytes(square_name_chars(sq).map_values(|c: char| c as u8)) == Some(sq as u8),
{
}

pub fn square_from_bytes(b: &[u8]) -> (r: Option<u8>)
    ensures
        r == square_of_bytes(b@),
        r matches Some(s) ==> s < 64,
{
    if b.len() != 2 || !(97u8 <= b[0] && b[0] <= 104u8) || !(49u8 <= b[1] && b[1] <= 56u8) {
        return None;
    }
    Some((b[0] - 97u8) + 8 * (b[1] - 49u8))
}

/// Parses an algebraic square name such as `e4`.
pub fn parse_square(text: &str) -> (r: Result<Square, String>)
    ensures
        r matches Ok(s) ==> square_of_bytes(text.spec_bytes()) == Some(s) && s < 64,
        r is Err <==> square_of_bytes(text.spec_bytes()) is None,
        r matches Err(msg) ==> msg@ == "invalid square `"@ + text@ + "`"@,
{
    match square_from_bytes(text.as_bytes()) {
        Some(s) => Ok(s),
        None => {
            let mut msg = String::from_str("invalid square `");
            msg.append(text);
            msg.append("`");
            Err(msg)
        },
    }
}

} // verus!
